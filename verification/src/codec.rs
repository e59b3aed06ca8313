//! The canonical wire form of a board.
//!
//! The coordinator serializes the authoritative post-write board to a single
//! text payload, publishes it on the board's topic, and every bridge forwards
//! it verbatim; watchers decode it. Writers and watchers must therefore agree
//! on one format exactly. The format is a JSON object in one canonical
//! spelling: fixed key order, no whitespace, numbers in canonical decimal,
//! strings quoted with `\"`, `\\` and `\u00..` escapes for the quote, the
//! backslash and control characters, and nothing else escaped. The decoder
//! accepts precisely the canonical spelling, which is what makes the codec
//! invertible: a payload decodes to a board if and only if it is that board's
//! encoding.

use vstd::prelude::*;
use crate::boards::{Board, BoardModel, Task, TaskList, TaskListModel, TaskModel};
use crate::numbers::{
    dec_rep, dec_terminated_at, is_dec_digit, lemma_dec_terminated_unique, parse_dec, push_dec,
};
use crate::text::push_char;

verus! {

/// Lowercase hexadecimal digit character.
pub open spec fn hex_digit(d: int) -> char {
    if d < 10 {
        crate::numbers::dec_digit(d)
    } else if d == 10 { 'a' }
    else if d == 11 { 'b' }
    else if d == 12 { 'c' }
    else if d == 13 { 'd' }
    else if d == 14 { 'e' }
    else { 'f' }
}

/// The value of a lowercase hexadecimal digit character.
pub open spec fn hex_val(c: char) -> int {
    if is_dec_digit(c) {
        crate::numbers::dec_val(c)
    } else if c == 'a' { 10 }
    else if c == 'b' { 11 }
    else if c == 'c' { 12 }
    else if c == 'd' { 13 }
    else if c == 'e' { 14 }
    else { 15 }
}

/// Whether a character is a lowercase hexadecimal digit.
pub open spec fn is_hex_lower(c: char) -> bool {
    is_dec_digit(c) || c == 'a' || c == 'b' || c == 'c' || c == 'd' || c == 'e' || c == 'f'
}

pub proof fn lemma_hex_digit_val(d: int)
    requires
        0 <= d < 16,
    ensures
        hex_val(hex_digit(d)) == d,
        is_hex_lower(hex_digit(d)),
{
}

pub proof fn lemma_hex_val_digit(c: char)
    requires
        is_hex_lower(c),
    ensures
        0 <= hex_val(c) < 16,
        hex_digit(hex_val(c)) == c,
{
}

/// The escape unit a character contributes to a quoted string: the quote and
/// the backslash are backslash-escaped, control characters take a `\u00..`
/// escape with two lowercase hex digits, every other character stands as
/// itself.
pub open spec fn esc_char(c: char) -> Seq<char> {
    if c == '"' {
        seq!['\\', '"']
    } else if c == '\\' {
        seq!['\\', '\\']
    } else if (c as u32) < 32 {
        seq![
            '\\',
            'u',
            '0',
            '0',
            hex_digit(((c as u32) / 16) as int),
            hex_digit(((c as u32) % 16) as int),
        ]
    } else {
        seq![c]
    }
}

/// The escaped body of a quoted string.
pub open spec fn esc_string(s: Seq<char>) -> Seq<char>
    decreases s.len(),
{
    if s.len() == 0 {
        Seq::empty()
    } else {
        esc_char(s[0]) + esc_string(s.drop_first())
    }
}

/// The canonical quoted form of a string.
pub open spec fn enc_string(s: Seq<char>) -> Seq<char> {
    seq!['"'] + esc_string(s) + seq!['"']
}

/// The escape unit of `c` sits in `v` at position `p`.
pub open spec fn esc_at(v: Seq<char>, p: int, c: char) -> bool {
    &&& 0 <= p
    &&& p + esc_char(c).len() <= v.len()
    &&& v.subrange(p, p + esc_char(c).len()) == esc_char(c)
}

/// The canonical quoted form of `m` sits in `v` at position `i`.
pub open spec fn string_enc_at(v: Seq<char>, i: int, m: Seq<char>) -> bool {
    &&& 0 <= i
    &&& i + enc_string(m).len() <= v.len()
    &&& v.subrange(i, i + enc_string(m).len()) == enc_string(m)
}

/// Reads a subrange equality as facts about the characters: where `w` sits in
/// `v` at `i`, each character of `w` is the corresponding character of `v`.
pub proof fn lemma_seq_at(v: Seq<char>, i: int, w: Seq<char>)
    requires
        0 <= i,
        i + w.len() <= v.len(),
        v.subrange(i, i + w.len() as int) == w,
    ensures
        forall|k: int| 0 <= k < w.len() ==> w[k] == v[i + k],
{
    assert forall|k: int| 0 <= k < w.len() implies w[k] == v[i + k] by {
        assert(v.subrange(i, i + w.len() as int)[k] == v[i + k]);
    }
}

/// The characters `w` sit in `v` at position `i`.
pub open spec fn sits(v: Seq<char>, i: int, w: Seq<char>) -> bool {
    &&& 0 <= i
    &&& i + w.len() <= v.len()
    &&& v.subrange(i, i + w.len() as int) == w
}

/// A concatenation sits somewhere exactly when its parts sit there in order.
pub proof fn lemma_sits_split(v: Seq<char>, i: int, x: Seq<char>, y: Seq<char>)
    requires
        sits(v, i, x + y),
    ensures
        sits(v, i, x),
        sits(v, i + x.len(), y),
{
    lemma_seq_at(v, i, x + y);
    assert(v.subrange(i, i + x.len() as int) =~= x);
    assert forall|k: int| 0 <= k < y.len() implies y[k] == v[i + x.len() + k] by {
        assert((x + y)[x.len() + k] == v[i + (x.len() + k)]);
    }
    assert(v.subrange(i + x.len(), i + x.len() + y.len() as int) =~= y);
}

/// A concatenation sits somewhere exactly when its parts sit there in order.
pub proof fn lemma_sits_join(v: Seq<char>, i: int, x: Seq<char>, y: Seq<char>)
    requires
        sits(v, i, x),
        sits(v, i + x.len(), y),
    ensures
        sits(v, i, x + y),
{
    lemma_seq_at(v, i, x);
    lemma_seq_at(v, i + x.len(), y);
    assert(v.subrange(i, i + x.len() + y.len() as int) =~= x + y);
}

/// The shapes an escape unit can take. In particular no unit starts with the
/// quote, which is why an unescaped quote always ends the string body.
pub proof fn lemma_esc_char_shape(c: char)
    ensures
        esc_char(c).len() == 1 || esc_char(c).len() == 2 || esc_char(c).len() == 6,
        esc_char(c)[0] != '"',
        esc_char(c).len() == 1 ==> esc_char(c)[0] == c && c != '"' && c != '\\' && (
        c as u32) >= 32,
        esc_char(c).len() >= 2 ==> esc_char(c)[0] == '\\',
        esc_char(c).len() == 2 ==> (esc_char(c)[1] == '"' && c == '"') || (esc_char(c)[1]
            == '\\' && c == '\\'),
        esc_char(c).len() == 6 ==> esc_char(c)[1] == 'u' && esc_char(c)[2] == '0'
            && esc_char(c)[3] == '0' && esc_char(c)[4] == hex_digit(((c as u32) / 16) as int)
            && esc_char(c)[5] == hex_digit(((c as u32) % 16) as int) && (c as u32) < 32,
{
    broadcast use vstd::utf8::char_is_scalar;

}

/// At one position there is at most one escape unit.
pub proof fn lemma_esc_unique(v: Seq<char>, p: int, c1: char, c2: char)
    requires
        esc_at(v, p, c1),
        esc_at(v, p, c2),
    ensures
        c1 == c2,
{
    broadcast use vstd::utf8::char_u32_cast;

    lemma_esc_char_shape(c1);
    lemma_esc_char_shape(c2);
    let e1 = esc_char(c1);
    let e2 = esc_char(c2);
    assert(forall|k: int| 0 <= k < e1.len() ==> v[p + k] == e1[k]);
    assert(forall|k: int| 0 <= k < e2.len() ==> v[p + k] == e2[k]);
    if e1.len() == 1 || e2.len() == 1 {
        // A lone character is not a backslash, so the other unit is lone too.
        assert(e1.len() == 1 && e2.len() == 1);
        assert(c1 == v[p] && c2 == v[p]);
    } else if e1.len() == 2 || e2.len() == 2 {
        // The second character separates `\"`/`\\` from `\u`.
        assert(v[p + 1] != 'u');
        assert(e1.len() == 2 && e2.len() == 2);
    } else {
        // Two `\u00..` escapes with the same digits name the same code.
        let u1 = c1 as u32;
        let u2 = c2 as u32;
        lemma_hex_digit_val((u1 / 16) as int);
        lemma_hex_digit_val((u1 % 16) as int);
        lemma_hex_digit_val((u2 / 16) as int);
        lemma_hex_digit_val((u2 % 16) as int);
        assert(hex_digit((u1 / 16) as int) == hex_digit((u2 / 16) as int));
        assert(u1 / 16 == u2 / 16);
        assert(u1 % 16 == u2 % 16);
        assert(u1 == u2);
        assert((u1 as char) == c1);
        assert((u2 as char) == c2);
    }
}

/// Appending one character appends one escape unit.
pub proof fn lemma_esc_string_push(s: Seq<char>, c: char)
    ensures
        esc_string(s.push(c)) == esc_string(s) + esc_char(c),
    decreases s.len(),
{
    if s.len() == 0 {
        assert(s.push(c).drop_first() =~= Seq::<char>::empty());
        assert(s.push(c)[0] == c);
        assert(esc_string(s.push(c)) == esc_char(c) + esc_string(Seq::<char>::empty()));
        assert(esc_string(Seq::<char>::empty()) =~= Seq::<char>::empty());
        assert(esc_string(s) =~= Seq::<char>::empty());
        assert(esc_string(s.push(c)) =~= esc_string(s) + esc_char(c));
    } else {
        assert(s.push(c).drop_first() =~= s.drop_first().push(c));
        assert(s.push(c)[0] == s[0]);
        lemma_esc_string_push(s.drop_first(), c);
        assert(esc_string(s.push(c)) == esc_char(s[0]) + (esc_string(s.drop_first())
            + esc_char(c)));
        assert(esc_string(s.push(c)) =~= esc_string(s) + esc_char(c));
    }
}

/// If the input from `q` both starts with the escape units of `a` and carries
/// the whole quoted body of `m` (closed by a quote at `e - 1`), then `a` is a
/// prefix of `m`, and what follows `a`'s units is `m`'s next unit — or the
/// closing quote when `a` is all of `m`.
pub proof fn lemma_units_prefix(a: Seq<char>, m: Seq<char>, v: Seq<char>, q: int, e: int)
    requires
        0 <= q,
        q + esc_string(a).len() <= v.len(),
        q <= e <= v.len(),
        v.subrange(q, q + esc_string(a).len()) == esc_string(a),
        v.subrange(q, e) == esc_string(m) + seq!['"'],
    ensures
        a.len() <= m.len(),
        a == m.take(a.len() as int),
        a.len() < m.len() ==> esc_at(v, q + esc_string(a).len(), m[a.len() as int]),
        a.len() == m.len() ==> q + esc_string(a).len() == e - 1 && v[e - 1] == '"',
    decreases a.len(),
{
    let body = esc_string(m) + seq!['"'];
    assert(v.subrange(q, e).len() == e - q);
    assert(body.len() == esc_string(m).len() + 1);
    assert(e == q + body.len());
    lemma_seq_at(v, q, body);
    lemma_seq_at(v, q, esc_string(a));
    if a.len() == 0 {
        assert(a =~= m.take(0));
        if m.len() == 0 {
            assert(v[q] == body[0]);
        } else {
            assert(esc_string(m) == esc_char(m[0]) + esc_string(m.drop_first()));
            lemma_esc_char_shape(m[0]);
            assert(forall|k: int| 0 <= k < esc_char(m[0]).len() ==> body[k] == esc_char(
                m[0],
            )[k]);
            assert(v.subrange(q, q + esc_char(m[0]).len()) =~= esc_char(m[0]));
        }
    } else {
        assert(esc_string(a) == esc_char(a[0]) + esc_string(a.drop_first()));
        lemma_esc_char_shape(a[0]);
        assert(forall|k: int| 0 <= k < esc_char(a[0]).len() ==> esc_string(a)[k] == esc_char(
            a[0],
        )[k]);
        assert(esc_at(v, q, a[0])) by {
            assert(v.subrange(q, q + esc_char(a[0]).len()) =~= esc_char(a[0]));
        }
        if m.len() == 0 {
            assert(v[q] == body[0]);
            assert(v[q] == '"');
            assert(v[q] == esc_char(a[0])[0]);
            assert(false);
        }
        assert(esc_string(m) == esc_char(m[0]) + esc_string(m.drop_first()));
        lemma_esc_char_shape(m[0]);
        assert(forall|k: int| 0 <= k < esc_char(m[0]).len() ==> body[k] == esc_char(m[0])[k]);
        assert(esc_at(v, q, m[0])) by {
            assert(esc_char(m[0]).len() <= body.len());
            assert(v.subrange(q, q + esc_char(m[0]).len()) =~= esc_char(m[0]));
        }
        lemma_esc_unique(v, q, a[0], m[0]);
        let u = esc_char(a[0]).len() as int;
        let q2 = q + u;
        assert(forall|k: int| 0 <= k < esc_string(a.drop_first()).len() ==> esc_string(a)[u + k]
            == esc_string(a.drop_first())[k]);
        assert(v.subrange(q2, q2 + esc_string(a.drop_first()).len() as int) =~= esc_string(
            a.drop_first(),
        ));
        assert(forall|k: int| 0 <= k < esc_string(m.drop_first()).len() + 1 ==> body[u + k]
            == (esc_string(m.drop_first()) + seq!['"'])[k]);
        assert(v.subrange(q2, e) =~= esc_string(m.drop_first()) + seq!['"']);
        lemma_units_prefix(a.drop_first(), m.drop_first(), v, q2, e);
        assert(a.drop_first() == m.drop_first().take(a.len() - 1));
        assert forall|k: int| 0 <= k < a.len() implies a[k] == m[k] by {
            if k > 0 {
                assert(a.drop_first()[k - 1] == a[k]);
                assert(m.drop_first().take(a.len() - 1)[k - 1] == m.drop_first()[k - 1]);
                assert(m.drop_first()[k - 1] == m[k]);
            }
        }
        assert(a =~= m.take(a.len() as int));
        if a.len() < m.len() {
            assert(m.drop_first()[a.len() - 1] == m[a.len() as int]);
            assert(q2 + esc_string(a.drop_first()).len() == q + esc_string(a).len());
        }
    }
}

/// At one position there is at most one canonically quoted string.
pub proof fn lemma_string_enc_unique(v: Seq<char>, i: int, m1: Seq<char>, m2: Seq<char>)
    requires
        string_enc_at(v, i, m1),
        string_enc_at(v, i, m2),
    ensures
        m1 == m2,
{
    let l1 = esc_string(m1).len() as int;
    let l2 = esc_string(m2).len() as int;
    let e1 = i + enc_string(m1).len();
    let e2 = i + enc_string(m2).len();
    lemma_seq_at(v, i, enc_string(m1));
    lemma_seq_at(v, i, enc_string(m2));
    assert(forall|k: int| 0 <= k < l1 ==> enc_string(m1)[k + 1] == esc_string(m1)[k]);
    assert(forall|k: int| 0 <= k < l2 ==> enc_string(m2)[k + 1] == esc_string(m2)[k]);
    assert(v.subrange(i + 1, i + 1 + l1) =~= esc_string(m1));
    assert(v.subrange(i + 1, i + 1 + l2) =~= esc_string(m2));
    assert(forall|k: int| 0 <= k < l1 + 1 ==> enc_string(m1)[k + 1] == (esc_string(m1)
        + seq!['"'])[k]);
    assert(forall|k: int| 0 <= k < l2 + 1 ==> enc_string(m2)[k + 1] == (esc_string(m2)
        + seq!['"'])[k]);
    assert(v.subrange(i + 1, e1) =~= esc_string(m1) + seq!['"']);
    assert(v.subrange(i + 1, e2) =~= esc_string(m2) + seq!['"']);
    lemma_units_prefix(m1, m2, v, i + 1, e2);
    if m1.len() < m2.len() {
        lemma_esc_char_shape(m2[m1.len() as int]);
        assert(enc_string(m1).len() == l1 + 2);
        assert(enc_string(m1)[1 + l1] == '"');
        assert(v[i + (1 + l1)] == enc_string(m1)[1 + l1]);
        assert(v[i + 1 + l1] == esc_char(m2[m1.len() as int])[0]);
        assert(false);
    }
    if m1.len() > m2.len() {
        lemma_units_prefix(m2, m1, v, i + 1, e1);
        lemma_esc_char_shape(m1[m2.len() as int]);
        assert(enc_string(m2).len() == l2 + 2);
        assert(enc_string(m2)[1 + l2] == '"');
        assert(v[i + (1 + l2)] == enc_string(m2)[1 + l2]);
        assert(v[i + 1 + l2] == esc_char(m1[m2.len() as int])[0]);
        assert(false);
    }
    assert(m1 =~= m2);
}

/// Lowercase hexadecimal digit character.
pub fn hex_digit_char(d: u8) -> (c: char)
    requires
        d < 16,
    ensures
        c == hex_digit(d as int),
{
    match d {
        0 => '0',
        1 => '1',
        2 => '2',
        3 => '3',
        4 => '4',
        5 => '5',
        6 => '6',
        7 => '7',
        8 => '8',
        9 => '9',
        10 => 'a',
        11 => 'b',
        12 => 'c',
        13 => 'd',
        14 => 'e',
        _ => 'f',
    }
}

/// The value of a lowercase hexadecimal digit character, if it is one.
pub fn hex_char_val(c: char) -> (r: Option<u8>)
    ensures
        r is Some <==> is_hex_lower(c),
        r is Some ==> r->0 < 16 && r->0 == hex_val(c),
{
    match c {
        '0' => Some(0),
        '1' => Some(1),
        '2' => Some(2),
        '3' => Some(3),
        '4' => Some(4),
        '5' => Some(5),
        '6' => Some(6),
        '7' => Some(7),
        '8' => Some(8),
        '9' => Some(9),
        'a' => Some(10),
        'b' => Some(11),
        'c' => Some(12),
        'd' => Some(13),
        'e' => Some(14),
        'f' => Some(15),
        _ => None,
    }
}

/// Appends the escape unit of one character.
fn push_unit(out: &mut String, c: char)
    ensures
        final(out)@ == old(out)@ + esc_char(c),
{
    if c == '"' {
        push_char(out, '\\');
        push_char(out, '"');
        proof {
            assert(out@ =~= old(out)@ + esc_char(c));
        }
    } else if c == '\\' {
        push_char(out, '\\');
        push_char(out, '\\');
        proof {
            assert(out@ =~= old(out)@ + esc_char(c));
        }
    } else {
        let u = c as u32;
        if u < 32 {
            push_char(out, '\\');
            push_char(out, 'u');
            push_char(out, '0');
            push_char(out, '0');
            push_char(out, hex_digit_char((u / 16) as u8));
            push_char(out, hex_digit_char((u % 16) as u8));
            proof {
                assert(out@ =~= old(out)@ + esc_char(c));
            }
        } else {
            push_char(out, c);
            proof {
                assert(out@ =~= old(out)@ + esc_char(c));
            }
        }
    }
}

/// Appends the canonical quoted form of a string.
pub fn push_quoted(out: &mut String, s: &str)
    ensures
        final(out)@ == old(out)@ + enc_string(s@),
{
    push_char(out, '"');
    let n = s.unicode_len();
    let mut i: usize = 0;
    while i < n
        invariant
            n == s@.len(),
            i <= n,
            out@ == old(out)@ + seq!['"'] + esc_string(s@.take(i as int)),
        decreases n - i,
    {
        let c = s.get_char(i);
        push_unit(out, c);
        proof {
            assert(s@.take(i as int).push(c) =~= s@.take(i + 1));
            lemma_esc_string_push(s@.take(i as int), c);
            assert(out@ =~= old(out)@ + seq!['"'] + esc_string(s@.take(i + 1)));
        }
        i = i + 1;
    }
    push_char(out, '"');
    proof {
        assert(s@.take(n as int) =~= s@);
        assert(out@ =~= old(out)@ + enc_string(s@));
    }
}

/// Reads one escape unit: succeeds exactly where a unit sits.
fn parse_unit(v: &Vec<char>, p: usize) -> (r: Option<(char, usize)>)
    requires
        p <= v@.len(),
    ensures
        r is Some ==> {
            let (c, q) = r->0;
            &&& p < q <= v@.len()
            &&& q == p + esc_char(c).len()
            &&& esc_at(v@, p as int, c)
        },
        forall|c: char| #[trigger] esc_at(v@, p as int, c) ==> r is Some && (r->0).0 == c,
{
    let ghost vv = v@;
    if p == v.len() {
        proof {
            assert forall|c: char| !(#[trigger] esc_at(vv, p as int, c)) by {
                lemma_esc_char_shape(c);
            }
        }
        return None;
    }
    let c0 = v[p];
    if c0 == '\\' {
        if p + 1 == v.len() {
            proof {
                assert forall|c: char| !(#[trigger] esc_at(vv, p as int, c)) by {
                    lemma_esc_char_shape(c);
                    if esc_at(vv, p as int, c) {
                        assert(vv[p as int] == esc_char(c)[0]);
                        assert(esc_char(c).len() >= 2);
                    }
                }
            }
            return None;
        }
        let c1 = v[p + 1];
        if c1 == '"' || c1 == '\\' {
            let c = if c1 == '"' { '"' } else { '\\' };
            proof {
                assert(vv.subrange(p as int, p + 2) =~= esc_char(c));
                assert forall|c2: char| #[trigger] esc_at(vv, p as int, c2) ==> c2 == c by {
                    if esc_at(vv, p as int, c2) {
                        lemma_esc_unique(vv, p as int, c, c2);
                    }
                }
            }
            return Some((c, p + 2));
        }
        if c1 != 'u' || v.len() - (p + 1) < 5 {
            proof {
                assert forall|c: char| !(#[trigger] esc_at(vv, p as int, c)) by {
                    lemma_esc_char_shape(c);
                    if esc_at(vv, p as int, c) {
                        assert(forall|k: int| 0 <= k < esc_char(c).len() ==> vv[p + k]
                            == esc_char(c)[k]);
                        assert(esc_char(c).len() >= 2);
                        assert(esc_char(c)[1] == vv[p + 1]);
                    }
                }
            }
            return None;
        }
        // `\u00xx` with two lowercase hex digits naming a control character.
        let ok2 = v[p + 2] == '0';
        let ok3 = v[p + 3] == '0';
        let h1 = hex_char_val(v[p + 4]);
        let h2 = hex_char_val(v[p + 5]);
        if ok2 && ok3 && h1.is_some() && h2.is_some() {
            let d1 = h1.unwrap();
            let d2 = h2.unwrap();
            if d1 < 2 {
                let u: u32 = d1 as u32 * 16 + d2 as u32;
                let c = (u as u8) as char;
                proof {
                    assert(c as u32 == u);
                    assert(u / 16 == d1 as u32 && u % 16 == d2 as u32) by (nonlinear_arith)
                        requires
                            u == d1 as u32 * 16 + d2 as u32,
                            d1 < 2,
                            d2 < 16,
                    ;
                    lemma_hex_val_digit(vv[p + 4]);
                    lemma_hex_val_digit(vv[p + 5]);
                    assert(vv.subrange(p as int, p + 6) =~= esc_char(c));
                    assert forall|c2: char| #[trigger] esc_at(vv, p as int, c2) ==> c2 == c by {
                        if esc_at(vv, p as int, c2) {
                            lemma_esc_unique(vv, p as int, c, c2);
                        }
                    }
                }
                return Some((c, p + 6));
            }
        }
        proof {
            assert forall|c: char| !(#[trigger] esc_at(vv, p as int, c)) by {
                lemma_esc_char_shape(c);
                if esc_at(vv, p as int, c) {
                    assert(forall|k: int| 0 <= k < esc_char(c).len() ==> vv[p + k]
                        == esc_char(c)[k]);
                    assert(esc_char(c).len() == 6);
                    let cu = c as u32;
                    lemma_hex_digit_val((cu / 16) as int);
                    lemma_hex_digit_val((cu % 16) as int);
                    assert(is_hex_lower(vv[p + 4]) && is_hex_lower(vv[p + 5]));
                    assert(hex_val(vv[p + 4]) == cu / 16 < 2);
                }
            }
        }
        return None;
    }
    if c0 == '"' {
        proof {
            assert forall|c: char| !(#[trigger] esc_at(vv, p as int, c)) by {
                lemma_esc_char_shape(c);
                if esc_at(vv, p as int, c) {
                    assert(vv[p as int] == esc_char(c)[0]);
                }
            }
        }
        return None;
    }
    let u = c0 as u32;
    if u < 32 {
        proof {
            assert forall|c: char| !(#[trigger] esc_at(vv, p as int, c)) by {
                lemma_esc_char_shape(c);
                if esc_at(vv, p as int, c) {
                    assert(vv[p as int] == esc_char(c)[0]);
                    if esc_char(c).len() == 1 {
                        assert(c == c0);
                    } else {
                        assert(c0 == '\\');
                    }
                }
            }
        }
        return None;
    }
    proof {
        assert(vv.subrange(p as int, p + 1) =~= esc_char(c0));
        assert forall|c2: char| #[trigger] esc_at(vv, p as int, c2) ==> c2 == c0 by {
            if esc_at(vv, p as int, c2) {
                lemma_esc_unique(vv, p as int, c0, c2);
            }
        }
    }
    Some((c0, p + 1))
}

/// Reads a canonically quoted string starting at `start`.
///
/// On success the consumed characters are exactly the quoted form of the
/// result; conversely, wherever the quoted form of some string sits at
/// `start`, the parse succeeds and returns exactly that string.
pub fn parse_quoted(v: &Vec<char>, start: usize) -> (r: Option<(String, usize)>)
    requires
        start <= v@.len(),
    ensures
        r is Some ==> {
            let (s, j) = r->0;
            &&& start < j <= v@.len()
            &&& j == start + enc_string(s@).len()
            &&& v@.subrange(start as int, j as int) == enc_string(s@)
        },
        forall|m: Seq<char>| #[trigger] string_enc_at(v@, start as int, m) ==> r is Some
            && (r->0).0@ == m,
{
    let ghost vv = v@;
    if start == v.len() || v[start] != '"' {
        proof {
            assert forall|m: Seq<char>| !(#[trigger] string_enc_at(vv, start as int, m)) by {
                if string_enc_at(vv, start as int, m) {
                    assert(vv[start as int] == enc_string(m)[0]);
                }
            }
        }
        return None;
    }
    let q0 = start + 1;
    let mut p: usize = q0;
    let mut acc = String::new();
    loop
        invariant
            start < q0 <= p <= vv.len(),
            q0 == start + 1,
            vv == v@,
            vv[start as int] == '"',
            esc_string(acc@) == vv.subrange(q0 as int, p as int),
        decreases vv.len() - p,
    {
        proof {
            // Relates the parsed prefix to any full quoted string at `start`.
            assert forall|m: Seq<char>| #[trigger] string_enc_at(vv, start as int, m) implies {
                let e = start + enc_string(m).len();
                &&& acc@.len() <= m.len()
                &&& acc@ == m.take(acc@.len() as int)
                &&& (acc@.len() < m.len() ==> esc_at(vv, p as int, m[acc@.len() as int]))
                &&& (acc@.len() == m.len() ==> p == e - 1 && vv[e - 1] == '"')
            } by {
                let e = start + enc_string(m).len();
                lemma_seq_at(vv, start as int, enc_string(m));
                assert(forall|k: int| 0 <= k < esc_string(m).len() + 1 ==> enc_string(m)[k + 1]
                    == (esc_string(m) + seq!['"'])[k]);
                assert(vv.subrange(q0 as int, e) =~= esc_string(m) + seq!['"']);
                lemma_units_prefix(acc@, m, vv, q0 as int, e);
            }
        }
        if p == v.len() {
            // Ran out before a closing quote: nothing canonical sits here.
            proof {
                assert forall|m: Seq<char>| !(#[trigger] string_enc_at(vv, start as int, m)) by {
                    if string_enc_at(vv, start as int, m) {
                        if acc@.len() < m.len() {
                            lemma_esc_char_shape(m[acc@.len() as int]);
                        }
                    }
                }
            }
            return None;
        }
        let c0 = v[p];
        if c0 == '"' {
            proof {
                assert(vv.subrange(start as int, p + 1) =~= enc_string(acc@));
                assert forall|m: Seq<char>| #[trigger] string_enc_at(vv, start as int, m)
                    implies acc@ == m by {
                    if acc@.len() < m.len() {
                        lemma_esc_char_shape(m[acc@.len() as int]);
                        assert(vv[p as int] == esc_char(m[acc@.len() as int])[0]);
                        assert(false);
                    }
                    assert(acc@ == m.take(m.len() as int));
                    assert(m.take(m.len() as int) =~= m);
                }
            }
            return Some((acc, p + 1));
        }
        match parse_unit(v, p) {
            None => {
                proof {
                    assert forall|m: Seq<char>| !(#[trigger] string_enc_at(
                        vv,
                        start as int,
                        m,
                    )) by {
                        if string_enc_at(vv, start as int, m) {
                            if acc@.len() == m.len() {
                                assert(vv[p as int] == '"');
                            }
                        }
                    }
                }
                return None;
            },
            Some((c, q)) => {
                let ghost a0 = acc@;
                push_char(&mut acc, c);
                proof {
                    lemma_esc_string_push(a0, c);
                    lemma_seq_at(vv, p as int, esc_char(c));
                    assert(vv.subrange(q0 as int, p as int).len() == p - q0);
                    lemma_seq_at(vv, q0 as int, esc_string(a0));
                    assert(esc_string(acc@) =~= vv.subrange(q0 as int, q as int));
                }
                p = q;
            },
        }
    }
}

/// The canonical form of a task: `{"id":<number>,"name":<string>}`.
pub open spec fn enc_task(m: TaskModel) -> Seq<char> {
    "{\"id\":"@ + dec_rep(m.id as nat) + ",\"name\":"@ + enc_string(m.name) + "}"@
}

/// The elements of an array after the first, each preceded by a comma.
pub open spec fn seq_enc_rest<T>(ms: Seq<T>, f: spec_fn(T) -> Seq<char>) -> Seq<char>
    decreases ms.len(),
{
    if ms.len() == 0 {
        Seq::empty()
    } else {
        seq![','] + f(ms[0]) + seq_enc_rest(ms.drop_first(), f)
    }
}

/// The comma-separated elements of an array, without the brackets.
pub open spec fn seq_enc_body<T>(ms: Seq<T>, f: spec_fn(T) -> Seq<char>) -> Seq<char> {
    if ms.len() == 0 {
        Seq::empty()
    } else {
        f(ms[0]) + seq_enc_rest(ms.drop_first(), f)
    }
}

/// The canonical form of an array: the bracketed comma-separated elements.
pub open spec fn seq_enc<T>(ms: Seq<T>, f: spec_fn(T) -> Seq<char>) -> Seq<char> {
    seq!['['] + seq_enc_body(ms, f) + seq![']']
}

/// The canonical form of a task array.
pub open spec fn enc_tasks(ms: Seq<TaskModel>) -> Seq<char> {
    seq_enc(ms, |m: TaskModel| enc_task(m))
}

/// The canonical form of a task list:
/// `{"id":<number>,"name":<string>,"tasks":<array>}`.
pub open spec fn enc_list(m: TaskListModel) -> Seq<char> {
    "{\"id\":"@ + dec_rep(m.id as nat) + ",\"name\":"@ + enc_string(m.name) + ",\"tasks\":"@
        + enc_tasks(m.tasks) + "}"@
}

/// The canonical form of a list array.
pub open spec fn enc_lists(ms: Seq<TaskListModel>) -> Seq<char> {
    seq_enc(ms, |m: TaskListModel| enc_list(m))
}

/// The scalar fields of a board's wire form, before its lists:
/// `{"id":<number>,"version":<number>,"created_at":<number>,"name":<string>`.
pub open spec fn enc_board_head(id: u128, version: u64, created_at: u64, name: Seq<
    char,
>) -> Seq<char> {
    "{\"id\":"@ + dec_rep(id as nat) + ",\"version\":"@ + dec_rep(version as nat)
        + ",\"created_at\":"@ + dec_rep(created_at as nat) + ",\"name\":"@ + enc_string(name)
}

/// The canonical wire form of a board:
/// `{"id":<number>,"version":<number>,"created_at":<number>,"name":<string>,"lists":<array>}`.
pub open spec fn enc_board(m: BoardModel) -> Seq<char> {
    enc_board_head(m.id, m.version, m.created_at, m.name) + ",\"lists\":"@ + enc_lists(m.lists)
        + "}"@
}

/// Appending one element extends the comma-separated tail by one unit.
pub proof fn lemma_seq_enc_rest_push<T>(ms: Seq<T>, m: T, f: spec_fn(T) -> Seq<char>)
    ensures
        seq_enc_rest(ms.push(m), f) == seq_enc_rest(ms, f) + seq![','] + f(m),
    decreases ms.len(),
{
    if ms.len() == 0 {
        assert(ms.push(m).drop_first() =~= Seq::<T>::empty());
        assert(ms.push(m)[0] == m);
        assert(seq_enc_rest(ms.push(m), f) == seq![','] + f(m) + seq_enc_rest(
            Seq::<T>::empty(),
            f,
        ));
        assert(seq_enc_rest(ms.push(m), f) =~= seq_enc_rest(ms, f) + seq![','] + f(m));
    } else {
        assert(ms.push(m).drop_first() =~= ms.drop_first().push(m));
        assert(ms.push(m)[0] == ms[0]);
        lemma_seq_enc_rest_push(ms.drop_first(), m, f);
        assert(seq_enc_rest(ms.push(m), f) == seq![','] + f(ms[0]) + (seq_enc_rest(
            ms.drop_first(),
            f,
        ) + seq![','] + f(m)));
        assert(seq_enc_rest(ms.push(m), f) =~= seq_enc_rest(ms, f) + seq![','] + f(m));
    }
}

/// Appending one element extends an array body by one unit (with its comma,
/// unless it is the first element).
pub proof fn lemma_seq_enc_body_push<T>(ms: Seq<T>, m: T, f: spec_fn(T) -> Seq<char>)
    ensures
        ms.len() == 0 ==> seq_enc_body(ms.push(m), f) == f(m),
        ms.len() > 0 ==> seq_enc_body(ms.push(m), f) == seq_enc_body(ms, f) + seq![','] + f(m),
{
    if ms.len() == 0 {
        assert(ms.push(m).drop_first() =~= Seq::<T>::empty());
        assert(ms.push(m)[0] == m);
        assert(seq_enc_body(ms.push(m), f) =~= f(m));
    } else {
        assert(ms.push(m).drop_first() =~= ms.drop_first().push(m));
        assert(ms.push(m)[0] == ms[0]);
        lemma_seq_enc_rest_push(ms.drop_first(), m, f);
        assert(seq_enc_body(ms.push(m), f) == f(ms[0]) + (seq_enc_rest(ms.drop_first(), f)
            + seq![','] + f(m)));
        assert(seq_enc_body(ms.push(m), f) =~= seq_enc_body(ms, f) + seq![','] + f(m));
    }
}

/// Appends the canonical form of a task.
fn push_task(out: &mut String, t: &Task)
    ensures
        final(out)@ == old(out)@ + enc_task(t@),
{
    out.append("{\"id\":");
    push_dec(out, t.id);
    out.append(",\"name\":");
    push_quoted(out, t.name.as_str());
    out.append("}");
    proof {
        assert(out@ =~= old(out)@ + enc_task(t@));
    }
}

/// Appends the canonical form of a task array.
fn push_tasks(out: &mut String, ts: &Vec<Task>)
    ensures
        final(out)@ == old(out)@ + enc_tasks(ts@.map_values(|t: Task| t@)),
{
    out.append("[");
    proof {
        reveal_strlit("[");
        assert(ts@.subrange(0, 0).map_values(|t: Task| t@) =~= Seq::<TaskModel>::empty());
        assert(out@ =~= old(out)@ + seq!['['] + seq_enc_body(
            ts@.subrange(0, 0).map_values(|t: Task| t@),
            |m: TaskModel| enc_task(m),
        ));
    }
    let mut k: usize = 0;
    while k < ts.len()
        invariant
            k <= ts@.len(),
            out@ == old(out)@ + seq!['['] + seq_enc_body(
                ts@.subrange(0, k as int).map_values(|t: Task| t@),
                |m: TaskModel| enc_task(m),
            ),
        decreases ts@.len() - k,
    {
        let ghost done = ts@.subrange(0, k as int).map_values(|t: Task| t@);
        if k > 0 {
            out.append(",");
        }
        push_task(out, &ts[k]);
        proof {
            reveal_strlit(",");
            let m = ts@[k as int]@;
            lemma_seq_enc_body_push(done, m, |m: TaskModel| enc_task(m));
            assert(done.len() == k);
            if k > 0 {
                assert(seq_enc_body(done.push(m), |m: TaskModel| enc_task(m)) == seq_enc_body(
                    done,
                    |m: TaskModel| enc_task(m),
                ) + seq![','] + enc_task(m));
            } else {
                assert(seq_enc_body(done.push(m), |m: TaskModel| enc_task(m)) == enc_task(m));
            }
            assert(out@ =~= old(out)@ + seq!['['] + seq_enc_body(
                done.push(m),
                |m: TaskModel| enc_task(m),
            ));
            assert(ts@.subrange(0, k + 1).map_values(|t: Task| t@) =~= done.push(m));
        }
        k = k + 1;
    }
    out.append("]");
    proof {
        reveal_strlit("]");
        assert(ts@.subrange(0, ts@.len() as int) =~= ts@);
        assert(out@ =~= old(out)@ + enc_tasks(ts@.map_values(|t: Task| t@)));
    }
}

/// Appends the canonical form of a task list.
fn push_list(out: &mut String, l: &TaskList)
    ensures
        final(out)@ == old(out)@ + enc_list(l@),
{
    out.append("{\"id\":");
    push_dec(out, l.id);
    out.append(",\"name\":");
    push_quoted(out, l.name.as_str());
    out.append(",\"tasks\":");
    push_tasks(out, &l.tasks);
    out.append("}");
    proof {
        assert(out@ =~= old(out)@ + enc_list(l@));
    }
}

/// Appends the canonical form of a list array.
fn push_lists(out: &mut String, ls: &Vec<TaskList>)
    ensures
        final(out)@ == old(out)@ + enc_lists(ls@.map_values(|l: TaskList| l@)),
{
    out.append("[");
    proof {
        reveal_strlit("[");
        assert(ls@.subrange(0, 0).map_values(|l: TaskList| l@) =~= Seq::<TaskListModel>::empty());
        assert(out@ =~= old(out)@ + seq!['['] + seq_enc_body(
            ls@.subrange(0, 0).map_values(|l: TaskList| l@),
            |m: TaskListModel| enc_list(m),
        ));
    }
    let mut k: usize = 0;
    while k < ls.len()
        invariant
            k <= ls@.len(),
            out@ == old(out)@ + seq!['['] + seq_enc_body(
                ls@.subrange(0, k as int).map_values(|l: TaskList| l@),
                |m: TaskListModel| enc_list(m),
            ),
        decreases ls@.len() - k,
    {
        let ghost done = ls@.subrange(0, k as int).map_values(|l: TaskList| l@);
        if k > 0 {
            out.append(",");
        }
        push_list(out, &ls[k]);
        proof {
            reveal_strlit(",");
            let m = ls@[k as int]@;
            lemma_seq_enc_body_push(done, m, |m: TaskListModel| enc_list(m));
            assert(done.len() == k);
            if k > 0 {
                assert(seq_enc_body(done.push(m), |m: TaskListModel| enc_list(m))
                    == seq_enc_body(done, |m: TaskListModel| enc_list(m)) + seq![','] + enc_list(
                    m,
                ));
            } else {
                assert(seq_enc_body(done.push(m), |m: TaskListModel| enc_list(m)) == enc_list(
                    m,
                ));
            }
            assert(out@ =~= old(out)@ + seq!['['] + seq_enc_body(
                done.push(m),
                |m: TaskListModel| enc_list(m),
            ));
            assert(ls@.subrange(0, k + 1).map_values(|l: TaskList| l@) =~= done.push(m));
        }
        k = k + 1;
    }
    out.append("]");
    proof {
        reveal_strlit("]");
        assert(ls@.subrange(0, ls@.len() as int) =~= ls@);
        assert(out@ =~= old(out)@ + enc_lists(ls@.map_values(|l: TaskList| l@)));
    }
}

/// The canonical wire form of a board: what the coordinator publishes after a
/// write, and the one spelling that `decode_board` accepts.
pub fn encode_board(b: &Board) -> (r: String)
    ensures
        r@ == enc_board(b@),
{
    let mut out = String::new();
    out.append("{\"id\":");
    push_dec(&mut out, b.id);
    out.append(",\"version\":");
    push_dec(&mut out, b.version as u128);
    out.append(",\"created_at\":");
    push_dec(&mut out, b.created_at as u128);
    out.append(",\"name\":");
    push_quoted(&mut out, b.name.as_str());
    out.append(",\"lists\":");
    push_lists(&mut out, &b.lists);
    out.append("}");
    proof {
        assert(out@ =~= enc_board(b@));
    }
    out
}

/// Reads an exact run of characters, given as a literal.
fn eat_lit(v: &Vec<char>, i: usize, lit: &str) -> (r: Option<usize>)
    requires
        i <= v@.len(),
    ensures
        r is Some ==> r->0 == i + lit@.len() && sits(v@, i as int, lit@),
        sits(v@, i as int, lit@) ==> r is Some,
{
    let n = lit.unicode_len();
    if v.len() - i < n {
        proof {
            if sits(v@, i as int, lit@) {
                assert(false);
            }
        }
        return None;
    }
    let end: usize = i + n;
    let mut k: usize = 0;
    while k < n
        invariant
            n == lit@.len(),
            end == i + n,
            i + n <= v@.len(),
            k <= n,
            forall|t: int| 0 <= t < k ==> v@[i + t] == lit@[t],
        decreases n - k,
    {
        if v[i + k] != lit.get_char(k) {
            proof {
                if sits(v@, i as int, lit@) {
                    lemma_seq_at(v@, i as int, lit@);
                }
            }
            return None;
        }
        k = k + 1;
    }
    proof {
        assert(v@.subrange(i as int, i + lit@.len() as int) =~= lit@);
    }
    Some(i + n)
}

/// Reads one exact character.
fn eat_char(v: &Vec<char>, i: usize, c: char) -> (r: Option<usize>)
    requires
        i <= v@.len(),
    ensures
        r is Some <==> (i < v@.len() && v@[i as int] == c),
        r is Some ==> r->0 == i + 1,
{
    if i < v.len() && v[i] == c {
        Some(i + 1)
    } else {
        None
    }
}

/// Every task, list and board encoding opens with a brace.
pub proof fn lemma_enc_task_head(m: TaskModel)
    ensures
        enc_task(m).len() >= 1,
        enc_task(m)[0] == '{',
{
    reveal_strlit("{\"id\":");
    assert(enc_task(m)[0] == "{\"id\":"@[0]);
}

/// Splits a task encoding at `i` into its parts: the key runs, the terminated
/// identifier digits, the quoted name and the closing brace, at their offsets.
pub proof fn lemma_task_parts(v: Seq<char>, i: int, m: TaskModel)
    requires
        sits(v, i, enc_task(m)),
    ensures
        ({
            let p1 = i + 6;
            let p2 = p1 + dec_rep(m.id as nat).len();
            let p3 = p2 + 8;
            let p4 = p3 + enc_string(m.name).len();
            &&& sits(v, i, "{\"id\":"@)
            &&& dec_terminated_at(v, p1, m.id)
            &&& sits(v, p2, ",\"name\":"@)
            &&& string_enc_at(v, p3, m.name)
            &&& sits(v, p4, "}"@)
            &&& i + enc_task(m).len() == p4 + 1
        }),
{
    reveal_strlit("{\"id\":");
    reveal_strlit(",\"name\":");
    reveal_strlit("}");
    let a = "{\"id\":"@;
    let b = dec_rep(m.id as nat);
    let c = ",\"name\":"@;
    let d = enc_string(m.name);
    let e = "}"@;
    assert(enc_task(m) == (((a + b) + c) + d) + e);
    lemma_sits_split(v, i, ((a + b) + c) + d, e);
    lemma_sits_split(v, i, (a + b) + c, d);
    lemma_sits_split(v, i, a + b, c);
    lemma_sits_split(v, i, a, b);
    let p1 = i + 6;
    let p2 = p1 + b.len();
    assert(dec_terminated_at(v, p1, m.id)) by {
        lemma_seq_at(v, p2, c);
        assert(c[0] == ',');
        assert(v[p2 + 0] == c[0]);
    }
    assert(string_enc_at(v, p2 + 8, m.name));
}

/// At one position there is at most one task encoding.
pub proof fn lemma_task_enc_unique(v: Seq<char>, i: int, m1: TaskModel, m2: TaskModel)
    requires
        sits(v, i, enc_task(m1)),
        sits(v, i, enc_task(m2)),
    ensures
        m1 == m2,
{
    lemma_task_parts(v, i, m1);
    lemma_task_parts(v, i, m2);
    lemma_dec_terminated_unique(v, i + 6, m1.id, m2.id);
    lemma_string_enc_unique(
        v,
        i + 6 + dec_rep(m1.id as nat).len() + 8,
        m1.name,
        m2.name,
    );
    assert(m1 =~= m2);
}

/// Reads one task: succeeds exactly where a task encoding sits, and returns
/// exactly that task.
fn parse_task(v: &Vec<char>, i: usize) -> (r: Option<(Task, usize)>)
    requires
        i <= v@.len(),
    ensures
        r is Some ==> {
            let (t, j) = r->0;
            &&& i < j <= v@.len()
            &&& j == i + enc_task(t@).len()
            &&& sits(v@, i as int, enc_task(t@))
        },
        forall|m: TaskModel| #[trigger] sits(v@, i as int, enc_task(m)) ==> r is Some && (
        r->0).0@ == m && (r->0).1 == i + enc_task(m).len(),
{
    let ghost vv = v@;
    let j0 = match eat_lit(v, i, "{\"id\":") {
        Some(j) => j,
        None => {
            proof {
                assert forall|m: TaskModel| !(#[trigger] sits(vv, i as int, enc_task(m))) by {
                    if sits(vv, i as int, enc_task(m)) {
                        lemma_task_parts(vv, i as int, m);
                    }
                }
            }
            return None;
        },
    };
    let (id, j1) = match parse_dec(v, j0) {
        Some(x) => x,
        None => {
            proof {
                assert forall|m: TaskModel| !(#[trigger] sits(vv, i as int, enc_task(m))) by {
                    if sits(vv, i as int, enc_task(m)) {
                        lemma_task_parts(vv, i as int, m);
                        reveal_strlit("{\"id\":");
                    }
                }
            }
            return None;
        },
    };
    let j2 = match eat_lit(v, j1, ",\"name\":") {
        Some(j) => j,
        None => {
            proof {
                assert forall|m: TaskModel| !(#[trigger] sits(vv, i as int, enc_task(m))) by {
                    if sits(vv, i as int, enc_task(m)) {
                        lemma_task_parts(vv, i as int, m);
                        reveal_strlit("{\"id\":");
                    }
                }
            }
            return None;
        },
    };
    let (name, j3) = match parse_quoted(v, j2) {
        Some(x) => x,
        None => {
            proof {
                assert forall|m: TaskModel| !(#[trigger] sits(vv, i as int, enc_task(m))) by {
                    if sits(vv, i as int, enc_task(m)) {
                        lemma_task_parts(vv, i as int, m);
                        reveal_strlit("{\"id\":");
                        reveal_strlit(",\"name\":");
                    }
                }
            }
            return None;
        },
    };
    let j4 = match eat_char(v, j3, '}') {
        Some(j) => j,
        None => {
            proof {
                assert forall|m: TaskModel| !(#[trigger] sits(vv, i as int, enc_task(m))) by {
                    if sits(vv, i as int, enc_task(m)) {
                        lemma_task_parts(vv, i as int, m);
                        reveal_strlit("{\"id\":");
                        reveal_strlit(",\"name\":");
                        reveal_strlit("}");
                        let p4 = i + 6 + dec_rep(m.id as nat).len() + 8 + enc_string(
                            m.name,
                        ).len();
                        assert(j0 == i + 6);
                        assert(j3 == p4);
                        lemma_seq_at(vv, p4, "}"@);
                        assert("}"@[0] == '}');
                        assert(vv[p4 + 0] == "}"@[0]);
                    }
                }
            }
            return None;
        },
    };
    let t = Task { id, name };
    proof {
        reveal_strlit("{\"id\":");
        reveal_strlit(",\"name\":");
        reveal_strlit("}");
        let a = "{\"id\":"@;
        let b = dec_rep(id as nat);
        let c = ",\"name\":"@;
        let d = enc_string(t.name@);
        let e = "}"@;
        assert(sits(vv, j3 as int, e)) by {
            assert(vv.subrange(j3 as int, j3 + 1) =~= e);
        }
        assert(sits(vv, j0 as int, b));
        lemma_sits_join(vv, i as int, a, b);
        lemma_sits_join(vv, i as int, a + b, c);
        lemma_sits_join(vv, i as int, (a + b) + c, d);
        lemma_sits_join(vv, i as int, ((a + b) + c) + d, e);
        assert(enc_task(t@) == (((a + b) + c) + d) + e);
        // The parse is also the only task that sits here.
        assert forall|m: TaskModel| #[trigger] sits(vv, i as int, enc_task(m)) implies t@ == m
            && i + enc_task(m).len() == j4 by {
            lemma_task_enc_unique(vv, i as int, t@, m);
        }
    }
    Some((t, j4))
}

/// After the first element of an array, the input alternates commas and
/// elements until the closing bracket. If the input at `q` starts with the
/// comma-prefixed units of `a` and carries the whole tail of `ms` closed by a
/// bracket at `e - 1`, then `a` is a prefix of `ms`, and what follows `a`'s
/// units is a comma and `ms`'s next element — or the closing bracket when `a`
/// is all of `ms`. The element encoding must be unambiguous on this input.
pub proof fn lemma_rest_peel<T>(
    a: Seq<T>,
    ms: Seq<T>,
    f: spec_fn(T) -> Seq<char>,
    v: Seq<char>,
    q: int,
    e: int,
)
    requires
        forall|i2: int, m1: T, m2: T|
            #![trigger sits(v, i2, f(m1)), sits(v, i2, f(m2))]
            sits(v, i2, f(m1)) && sits(v, i2, f(m2)) ==> m1 == m2,
        0 <= q,
        q + seq_enc_rest(a, f).len() <= v.len(),
        q <= e <= v.len(),
        v.subrange(q, q + seq_enc_rest(a, f).len() as int) == seq_enc_rest(a, f),
        v.subrange(q, e) == seq_enc_rest(ms, f) + seq![']'],
    ensures
        a.len() <= ms.len(),
        a == ms.take(a.len() as int),
        a.len() == ms.len() ==> q + seq_enc_rest(a, f).len() == e - 1 && v[e - 1] == ']',
        a.len() < ms.len() ==> {
            let p = q + seq_enc_rest(a, f).len();
            &&& p < v.len() && v[p] == ','
            &&& sits(v, p + 1, f(ms[a.len() as int]))
        },
    decreases a.len(),
{
    let tail = seq_enc_rest(ms, f) + seq![']'];
    assert(v.subrange(q, e).len() == e - q);
    assert(e == q + tail.len());
    lemma_seq_at(v, q, tail);
    if a.len() == 0 {
        assert(a =~= ms.take(0));
        if ms.len() == 0 {
            assert(seq_enc_rest(ms, f).len() == 0);
            assert(tail[0] == ']');
            assert(v[q + 0] == tail[0]);
        } else {
            assert(seq_enc_rest(ms, f) == (seq![','] + f(ms[0])) + seq_enc_rest(
                ms.drop_first(),
                f,
            ));
            assert(((seq![','] + f(ms[0])) + (seq_enc_rest(ms.drop_first(), f) + seq![']']))
                =~= tail);
            assert(sits(v, q, tail));
            lemma_sits_split(
                v,
                q,
                seq![','] + f(ms[0]),
                seq_enc_rest(ms.drop_first(), f) + seq![']'],
            );
            lemma_sits_split(v, q, seq![','], f(ms[0]));
            lemma_seq_at(v, q, seq![',']);
            assert(v[q + 0] == seq![','][0]);
        }
    } else {
        assert(seq_enc_rest(a, f) == (seq![','] + f(a[0])) + seq_enc_rest(a.drop_first(), f));
        assert(sits(v, q, seq_enc_rest(a, f)));
        lemma_sits_split(v, q, seq![','] + f(a[0]), seq_enc_rest(a.drop_first(), f));
        lemma_sits_split(v, q, seq![','], f(a[0]));
        lemma_seq_at(v, q, seq![',']);
        assert(v[q + 0] == seq![','][0]);
        if ms.len() == 0 {
            assert(seq_enc_rest(ms, f).len() == 0);
            assert(tail[0] == ']');
            assert(v[q + 0] == tail[0]);
            assert(false);
        }
        assert(seq_enc_rest(ms, f) == (seq![','] + f(ms[0])) + seq_enc_rest(
            ms.drop_first(),
            f,
        ));
        assert(((seq![','] + f(ms[0])) + (seq_enc_rest(ms.drop_first(), f) + seq![']']))
            =~= tail);
        assert(sits(v, q, tail));
        lemma_sits_split(
            v,
            q,
            seq![','] + f(ms[0]),
            seq_enc_rest(ms.drop_first(), f) + seq![']'],
        );
        lemma_sits_split(v, q, seq![','], f(ms[0]));
        assert(sits(v, q + 1, f(a[0])));
        assert(sits(v, q + 1, f(ms[0])));
        assert(a[0] == ms[0]);
        let q2 = q + 1 + f(a[0]).len() as int;
        assert(v.subrange(q2, q2 + seq_enc_rest(a.drop_first(), f).len() as int)
            == seq_enc_rest(a.drop_first(), f));
        assert(sits(v, q2, seq_enc_rest(ms.drop_first(), f) + seq![']']));
        assert(q2 + (seq_enc_rest(ms.drop_first(), f) + seq![']']).len() == e);
        assert(v.subrange(q2, e) == seq_enc_rest(ms.drop_first(), f) + seq![']']);
        lemma_rest_peel(a.drop_first(), ms.drop_first(), f, v, q2, e);
        assert(a.drop_first() == ms.drop_first().take(a.len() - 1));
        assert forall|k: int| 0 <= k < a.len() implies a[k] == ms[k] by {
            if k > 0 {
                assert(a.drop_first()[k - 1] == a[k]);
                assert(ms.drop_first().take(a.len() - 1)[k - 1] == ms.drop_first()[k - 1]);
                assert(ms.drop_first()[k - 1] == ms[k]);
            }
        }
        assert(a =~= ms.take(a.len() as int));
        assert(q2 + seq_enc_rest(a.drop_first(), f).len() == q + seq_enc_rest(a, f).len());
        if a.len() < ms.len() {
            assert(ms.drop_first()[a.len() - 1] == ms[a.len() as int]);
        }
    }
}

/// At one position there is at most one task-array encoding.
pub proof fn lemma_tasks_enc_unique(v: Seq<char>, i: int, ms1: Seq<TaskModel>, ms2: Seq<
    TaskModel,
>)
    requires
        sits(v, i, enc_tasks(ms1)),
        sits(v, i, enc_tasks(ms2)),
    ensures
        ms1 == ms2,
{
    let f = |m: TaskModel| enc_task(m);
    assert forall|i2: int, m1: TaskModel, m2: TaskModel|
        #![trigger sits(v, i2, f(m1)), sits(v, i2, f(m2))]
        sits(v, i2, f(m1)) && sits(v, i2, f(m2)) implies m1 == m2 by {
        lemma_task_enc_unique(v, i2, m1, m2);
    }
    let e1 = i + enc_tasks(ms1).len();
    let e2 = i + enc_tasks(ms2).len();
    assert(enc_tasks(ms1) == (seq!['['] + seq_enc_body(ms1, f)) + seq![']']);
    assert(enc_tasks(ms2) == (seq!['['] + seq_enc_body(ms2, f)) + seq![']']);
    assert((seq!['['] + (seq_enc_body(ms1, f) + seq![']'])) =~= enc_tasks(ms1));
    assert((seq!['['] + (seq_enc_body(ms2, f) + seq![']'])) =~= enc_tasks(ms2));
    assert(sits(v, i, seq!['['] + (seq_enc_body(ms1, f) + seq![']'])));
    assert(sits(v, i, seq!['['] + (seq_enc_body(ms2, f) + seq![']'])));
    lemma_sits_split(v, i, seq!['['], seq_enc_body(ms1, f) + seq![']']);
    lemma_sits_split(v, i, seq!['['], seq_enc_body(ms2, f) + seq![']']);
    let q0 = i + 1;
    if ms1.len() == 0 || ms2.len() == 0 {
        if ms1.len() != ms2.len() {
            // One side closes at once, the other opens an element.
            let (empty_side, full_side) = if ms1.len() == 0 { (ms1, ms2) } else { (ms2, ms1) };
            assert(seq_enc_body(empty_side, f).len() == 0);
            lemma_seq_at(v, q0, seq_enc_body(empty_side, f) + seq![']']);
            assert((seq_enc_body(empty_side, f) + seq![']'])[0] == ']');
            assert(v[q0 + 0] == ']');
            assert(seq_enc_body(full_side, f) == f(full_side[0]) + seq_enc_rest(
                full_side.drop_first(),
                f,
            ));
            assert(((f(full_side[0]) + (seq_enc_rest(full_side.drop_first(), f) + seq![']'])))
                =~= seq_enc_body(full_side, f) + seq![']']);
            assert(sits(v, q0, f(full_side[0]) + (seq_enc_rest(full_side.drop_first(), f)
                + seq![']'])));
            lemma_sits_split(v, q0, f(full_side[0]), seq_enc_rest(full_side.drop_first(), f)
                + seq![']']);
            lemma_enc_task_head(full_side[0]);
            lemma_seq_at(v, q0, f(full_side[0]));
            assert(v[q0 + 0] == f(full_side[0])[0]);
            assert(false);
        }
        assert(ms1 =~= ms2);
    } else {
        assert(seq_enc_body(ms1, f) == f(ms1[0]) + seq_enc_rest(ms1.drop_first(), f));
        assert(seq_enc_body(ms2, f) == f(ms2[0]) + seq_enc_rest(ms2.drop_first(), f));
        assert((f(ms1[0]) + (seq_enc_rest(ms1.drop_first(), f) + seq![']'])) =~= seq_enc_body(
            ms1,
            f,
        ) + seq![']']);
        assert((f(ms2[0]) + (seq_enc_rest(ms2.drop_first(), f) + seq![']'])) =~= seq_enc_body(
            ms2,
            f,
        ) + seq![']']);
        assert(sits(v, q0, f(ms1[0]) + (seq_enc_rest(ms1.drop_first(), f) + seq![']'])));
        assert(sits(v, q0, f(ms2[0]) + (seq_enc_rest(ms2.drop_first(), f) + seq![']'])));
        lemma_sits_split(v, q0, f(ms1[0]), seq_enc_rest(ms1.drop_first(), f) + seq![']']);
        lemma_sits_split(v, q0, f(ms2[0]), seq_enc_rest(ms2.drop_first(), f) + seq![']']);
        assert(ms1[0] == ms2[0]);
        let q2 = q0 + f(ms1[0]).len() as int;
        assert(q2 + (seq_enc_rest(ms1.drop_first(), f) + seq![']']).len() == e1);
        assert(q2 + (seq_enc_rest(ms2.drop_first(), f) + seq![']']).len() == e2);
        assert(v.subrange(q2, e1) == seq_enc_rest(ms1.drop_first(), f) + seq![']']);
        assert(v.subrange(q2, e2) == seq_enc_rest(ms2.drop_first(), f) + seq![']']);
        lemma_sits_split(v, q2, seq_enc_rest(ms1.drop_first(), f), seq![']']);
        lemma_sits_split(v, q2, seq_enc_rest(ms2.drop_first(), f), seq![']']);
        lemma_rest_peel(ms1.drop_first(), ms2.drop_first(), f, v, q2, e2);
        if ms1.len() < ms2.len() {
            // After all of the shorter side comes its bracket, where the
            // longer side expects a comma.
            let p = q2 + seq_enc_rest(ms1.drop_first(), f).len();
            lemma_seq_at(v, p, seq![']']);
            assert(v[p + 0] == seq![']'][0]);
            assert(false);
        }
        if ms1.len() > ms2.len() {
            lemma_rest_peel(ms2.drop_first(), ms1.drop_first(), f, v, q2, e1);
            let p = q2 + seq_enc_rest(ms2.drop_first(), f).len();
            lemma_seq_at(v, p, seq![']']);
            assert(v[p + 0] == seq![']'][0]);
            assert(false);
        }
        assert(ms1.drop_first() == ms2.drop_first().take(ms1.len() - 1));
        assert(ms2.drop_first().take(ms1.len() - 1) =~= ms2.drop_first());
        assert forall|k: int| 0 <= k < ms1.len() implies ms1[k] == ms2[k] by {
            if k > 0 {
                assert(ms1.drop_first()[k - 1] == ms1[k]);
                assert(ms2.drop_first()[k - 1] == ms2[k]);
            }
        }
        assert(ms1 =~= ms2);
    }
}

/// Splits a task-array encoding at `i` into its parts: the opening bracket,
/// the first element, the comma-separated tail and the closing bracket.
pub proof fn lemma_tasks_parts(v: Seq<char>, i: int, ms: Seq<TaskModel>)
    requires
        sits(v, i, enc_tasks(ms)),
    ensures
        i + 2 <= i + enc_tasks(ms).len() <= v.len(),
        v[i] == '[',
        ms.len() == 0 ==> enc_tasks(ms).len() == 2 && v[i + 1] == ']',
        ms.len() > 0 ==> {
            let q2 = i + 1 + enc_task(ms[0]).len();
            let e = i + enc_tasks(ms).len();
            &&& sits(v, i + 1, enc_task(ms[0]))
            &&& q2 <= e <= v.len()
            &&& v.subrange(q2, e) == seq_enc_rest(
                ms.drop_first(),
                |m: TaskModel| enc_task(m),
            ) + seq![']']
            &&& e == q2 + seq_enc_rest(ms.drop_first(), |m: TaskModel| enc_task(m)).len() + 1
        },
{
    let f = |m: TaskModel| enc_task(m);
    let e = i + enc_tasks(ms).len();
    assert(enc_tasks(ms) == (seq!['['] + seq_enc_body(ms, f)) + seq![']']);
    assert((seq!['['] + (seq_enc_body(ms, f) + seq![']'])) =~= enc_tasks(ms));
    assert(sits(v, i, seq!['['] + (seq_enc_body(ms, f) + seq![']'])));
    lemma_sits_split(v, i, seq!['['], seq_enc_body(ms, f) + seq![']']);
    lemma_seq_at(v, i, seq!['[']);
    assert(v[i + 0] == seq!['['][0]);
    if ms.len() == 0 {
        assert(seq_enc_body(ms, f).len() == 0);
        lemma_seq_at(v, i + 1, seq_enc_body(ms, f) + seq![']']);
        assert(v[i + 1 + 0] == (seq_enc_body(ms, f) + seq![']'])[0]);
    } else {
        assert(seq_enc_body(ms, f) == f(ms[0]) + seq_enc_rest(ms.drop_first(), f));
        assert((f(ms[0]) + (seq_enc_rest(ms.drop_first(), f) + seq![']'])) =~= seq_enc_body(
            ms,
            f,
        ) + seq![']']);
        assert(sits(v, i + 1, f(ms[0]) + (seq_enc_rest(ms.drop_first(), f) + seq![']'])));
        lemma_sits_split(v, i + 1, f(ms[0]), seq_enc_rest(ms.drop_first(), f) + seq![']']);
        let q2 = i + 1 + enc_task(ms[0]).len();
        assert(sits(v, q2, seq_enc_rest(ms.drop_first(), f) + seq![']']));
        assert(q2 + (seq_enc_rest(ms.drop_first(), f) + seq![']']).len() == e);
    }
}

/// Reads a task array: succeeds exactly where one sits, and returns exactly
/// its tasks, in order.
fn parse_tasks(v: &Vec<char>, i: usize) -> (r: Option<(Vec<Task>, usize)>)
    requires
        i <= v@.len(),
    ensures
        r is Some ==> {
            let (ts, j) = r->0;
            &&& i < j <= v@.len()
            &&& j == i + enc_tasks(ts@.map_values(|t: Task| t@)).len()
            &&& sits(v@, i as int, enc_tasks(ts@.map_values(|t: Task| t@)))
        },
        forall|ms: Seq<TaskModel>| #[trigger] sits(v@, i as int, enc_tasks(ms)) ==> r is Some
            && (r->0).0@.map_values(|t: Task| t@) == ms && (r->0).1 == i + enc_tasks(ms).len(),
{
    let ghost vv = v@;
    let j0 = match eat_char(v, i, '[') {
        Some(j) => j,
        None => {
            proof {
                assert forall|ms: Seq<TaskModel>| !(#[trigger] sits(
                    vv,
                    i as int,
                    enc_tasks(ms),
                )) by {
                    if sits(vv, i as int, enc_tasks(ms)) {
                        lemma_tasks_parts(vv, i as int, ms);
                    }
                }
            }
            return None;
        },
    };
    match eat_char(v, j0, ']') {
        Some(j1) => {
            let ts: Vec<Task> = Vec::new();
            proof {
                let done = ts@.map_values(|t: Task| t@);
                assert(done =~= Seq::<TaskModel>::empty());
                assert(enc_tasks(done) =~= seq!['[', ']']);
                assert(vv.subrange(i as int, i + 2) =~= seq!['[', ']']);
                assert(sits(vv, i as int, enc_tasks(done)));
                assert forall|ms: Seq<TaskModel>| #[trigger] sits(vv, i as int, enc_tasks(ms))
                    implies done == ms && j1 == i + enc_tasks(ms).len() by {
                    lemma_tasks_parts(vv, i as int, ms);
                    if ms.len() > 0 {
                        lemma_enc_task_head(ms[0]);
                        lemma_seq_at(vv, i + 1, enc_task(ms[0]));
                        assert(vv[i + 1 + 0] == enc_task(ms[0])[0]);
                        assert(false);
                    }
                    assert(done =~= ms);
                }
            }
            return Some((ts, j1));
        },
        None => {},
    }
    let first = match parse_task(v, j0) {
        Some(x) => x,
        None => {
            proof {
                assert forall|ms: Seq<TaskModel>| !(#[trigger] sits(
                    vv,
                    i as int,
                    enc_tasks(ms),
                )) by {
                    if sits(vv, i as int, enc_tasks(ms)) {
                        lemma_tasks_parts(vv, i as int, ms);
                        if ms.len() == 0 {
                            // The bracket would have closed at once.
                            assert(vv[j0 as int] == ']');
                        }
                    }
                }
            }
            return None;
        },
    };
    let mut ts: Vec<Task> = Vec::new();
    ts.push(first.0);
    let mut p = first.1;
    proof {
        let done = ts@.map_values(|t: Task| t@);
        assert(done =~= seq![first.0@]);
        assert(done[0] == first.0@);
        assert(seq_enc_rest(done.drop_first(), |m: TaskModel| enc_task(m)).len() == 0) by {
            assert(done.drop_first() =~= Seq::<TaskModel>::empty());
        }
        assert(seq_enc_body(done, |m: TaskModel| enc_task(m)) =~= enc_task(done[0]));
        assert(sits(vv, j0 as int, seq_enc_body(done, |m: TaskModel| enc_task(m))));
    }
    loop
        invariant
            vv == v@,
            i < vv.len(),
            j0 == i + 1,
            ts@.len() >= 1,
            vv[i as int] == '[',
            p <= vv.len(),
            sits(vv, j0 as int, seq_enc_body(
                ts@.map_values(|t: Task| t@),
                |m: TaskModel| enc_task(m),
            )),
            p == j0 + seq_enc_body(ts@.map_values(|t: Task| t@), |m: TaskModel| enc_task(m)).len(),
        decreases vv.len() - p,
    {
        let ghost done = ts@.map_values(|t: Task| t@);
        let ghost f = |m: TaskModel| enc_task(m);
        proof {
            // Common facts relating the parsed prefix to any full array here.
            assert(seq_enc_body(done, f) == enc_task(done[0]) + seq_enc_rest(
                done.drop_first(),
                f,
            ));
            lemma_sits_split(vv, j0 as int, enc_task(done[0]), seq_enc_rest(
                done.drop_first(),
                f,
            ));
            assert forall|i2: int, m1: TaskModel, m2: TaskModel|
                #![trigger sits(vv, i2, f(m1)), sits(vv, i2, f(m2))]
                sits(vv, i2, f(m1)) && sits(vv, i2, f(m2)) implies m1 == m2 by {
                lemma_task_enc_unique(vv, i2, m1, m2);
            }
            assert forall|ms: Seq<TaskModel>| #[trigger] sits(vv, i as int, enc_tasks(ms))
                implies {
                let e = i + enc_tasks(ms).len();
                &&& ms.len() >= 1
                &&& ms[0] == done[0]
                &&& done.len() <= ms.len()
                &&& done == ms.take(done.len() as int)
                &&& (done.len() == ms.len() ==> p == e - 1 && vv[p as int] == ']')
                &&& (done.len() < ms.len() ==> vv[p as int] == ',' && p + 1 < vv.len()
                    && sits(vv, p + 1, enc_task(ms[done.len() as int])))
            } by {
                lemma_tasks_parts(vv, i as int, ms);
                let e = i + enc_tasks(ms).len();
                if ms.len() == 0 {
                    lemma_enc_task_head(done[0]);
                    lemma_seq_at(vv, j0 as int, enc_task(done[0]));
                    assert(vv[j0 + 0] == enc_task(done[0])[0]);
                    assert(false);
                }
                lemma_task_enc_unique(vv, j0 as int, done[0], ms[0]);
                let q2 = j0 + enc_task(done[0]).len();
                lemma_rest_peel(done.drop_first(), ms.drop_first(), f, vv, q2, e);
                assert(done.drop_first() == ms.drop_first().take(done.len() - 1));
                assert forall|k: int| 0 <= k < done.len() implies done[k] == ms[k] by {
                    if k > 0 {
                        assert(done.drop_first()[k - 1] == done[k]);
                        assert(ms.drop_first().take(done.len() - 1)[k - 1]
                            == ms.drop_first()[k - 1]);
                        assert(ms.drop_first()[k - 1] == ms[k]);
                    }
                }
                assert(done =~= ms.take(done.len() as int));
                if done.len() < ms.len() {
                    assert(ms.drop_first()[done.len() - 1] == ms[done.len() as int]);
                    lemma_enc_task_head(ms[done.len() as int]);
                }
            }
        }
        match eat_char(v, p, ']') {
            Some(j) => {
                proof {
                    assert(vv.subrange(p as int, p + 1) =~= seq![']']);
                    assert(sits(vv, p as int, seq![']']));
                    lemma_sits_join(vv, j0 as int, seq_enc_body(done, f), seq![']']);
                    assert(vv.subrange(i as int, i + 1) =~= seq!['[']);
                    assert(sits(vv, i as int, seq!['[']));
                    lemma_sits_join(vv, i as int, seq!['['], seq_enc_body(done, f)
                        + seq![']']);
                    assert((seq!['['] + (seq_enc_body(done, f) + seq![']'])) =~= enc_tasks(
                        done,
                    ));
                    assert(sits(vv, i as int, enc_tasks(done)));
                    assert forall|ms: Seq<TaskModel>| #[trigger] sits(
                        vv,
                        i as int,
                        enc_tasks(ms),
                    ) implies done == ms && j == i + enc_tasks(ms).len() by {
                        if done.len() < ms.len() {
                            assert(vv[p as int] == ',');
                            assert(false);
                        }
                        assert(done =~= ms.take(done.len() as int));
                        assert(ms.take(ms.len() as int) =~= ms);
                    }
                }
                return Some((ts, j));
            },
            None => {},
        }
        match eat_char(v, p, ',') {
            Some(p1) => {
                match parse_task(v, p1) {
                    Some((t, q)) => {
                        ts.push(t);
                        proof {
                            let done2 = ts@.map_values(|t2: Task| t2@);
                            assert(done2 =~= done.push(t@));
                            assert(done2.drop_first() =~= done.drop_first().push(t@));
                            lemma_seq_enc_rest_push(done.drop_first(), t@, f);
                            assert(vv.subrange(p as int, p + 1) =~= seq![',']);
                            assert(sits(vv, p as int, seq![',']));
                            let q2 = j0 + enc_task(done[0]).len();
                            assert(sits(vv, q2, seq_enc_rest(done.drop_first(), f)));
                            lemma_sits_join(vv, q2, seq_enc_rest(done.drop_first(), f),
                                seq![',']);
                            lemma_sits_join(vv, q2, seq_enc_rest(done.drop_first(), f)
                                + seq![','], enc_task(t@));
                            assert((seq_enc_rest(done.drop_first(), f) + seq![','] + enc_task(
                                t@,
                            )) == (seq_enc_rest(done.drop_first(), f) + seq![',']) + enc_task(
                                t@,
                            ));
                            assert(sits(vv, q2, seq_enc_rest(done2.drop_first(), f)));
                            assert(done2[0] == done[0]);
                            assert(seq_enc_body(done2, f) == enc_task(done2[0])
                                + seq_enc_rest(done2.drop_first(), f));
                            assert(sits(vv, j0 as int, enc_task(done2[0])));
                            lemma_sits_join(vv, j0 as int, enc_task(done2[0]), seq_enc_rest(
                                done2.drop_first(),
                                f,
                            ));
                            assert(sits(vv, j0 as int, seq_enc_body(done2, f)));
                        }
                        p = q;
                    },
                    None => {
                        proof {
                            assert forall|ms: Seq<TaskModel>| !(#[trigger] sits(
                                vv,
                                i as int,
                                enc_tasks(ms),
                            )) by {
                                if sits(vv, i as int, enc_tasks(ms)) {
                                    if done.len() == ms.len() {
                                        assert(vv[p as int] == ']');
                                    }
                                }
                            }
                        }
                        return None;
                    },
                }
            },
            None => {
                proof {
                    assert forall|ms: Seq<TaskModel>| !(#[trigger] sits(
                        vv,
                        i as int,
                        enc_tasks(ms),
                    )) by {
                        if sits(vv, i as int, enc_tasks(ms)) {
                            if done.len() == ms.len() {
                                assert(vv[p as int] == ']');
                            } else {
                                assert(vv[p as int] == ',');
                            }
                        }
                    }
                }
                return None;
            },
        }
    }
}

/// Every task, list and board encoding opens with a brace.
pub proof fn lemma_enc_list_head(m: TaskListModel)
    ensures
        enc_list(m).len() >= 1,
        enc_list(m)[0] == '{',
{
    reveal_strlit("{\"id\":");
    assert(enc_list(m)[0] == "{\"id\":"@[0]);
}

/// Splits a task-list encoding at `i` into its parts, at their offsets.
pub proof fn lemma_list_parts(v: Seq<char>, i: int, m: TaskListModel)
    requires
        sits(v, i, enc_list(m)),
    ensures
        ({
            let p1 = i + 6;
            let p2 = p1 + dec_rep(m.id as nat).len();
            let p3 = p2 + 8;
            let p4 = p3 + enc_string(m.name).len();
            let p5 = p4 + 9;
            let p6 = p5 + enc_tasks(m.tasks).len();
            &&& sits(v, i, "{\"id\":"@)
            &&& dec_terminated_at(v, p1, m.id)
            &&& sits(v, p2, ",\"name\":"@)
            &&& string_enc_at(v, p3, m.name)
            &&& sits(v, p4, ",\"tasks\":"@)
            &&& sits(v, p5, enc_tasks(m.tasks))
            &&& sits(v, p6, "}"@)
            &&& i + enc_list(m).len() == p6 + 1
        }),
{
    reveal_strlit("{\"id\":");
    reveal_strlit(",\"name\":");
    reveal_strlit(",\"tasks\":");
    reveal_strlit("}");
    let a = "{\"id\":"@;
    let b = dec_rep(m.id as nat);
    let c = ",\"name\":"@;
    let d = enc_string(m.name);
    let e = ",\"tasks\":"@;
    let g = enc_tasks(m.tasks);
    let h = "}"@;
    assert(enc_list(m) == (((((a + b) + c) + d) + e) + g) + h);
    lemma_sits_split(v, i, ((((a + b) + c) + d) + e) + g, h);
    lemma_sits_split(v, i, (((a + b) + c) + d) + e, g);
    lemma_sits_split(v, i, ((a + b) + c) + d, e);
    lemma_sits_split(v, i, (a + b) + c, d);
    lemma_sits_split(v, i, a + b, c);
    lemma_sits_split(v, i, a, b);
    let p1 = i + 6;
    let p2 = p1 + b.len();
    assert(dec_terminated_at(v, p1, m.id)) by {
        lemma_seq_at(v, p2, c);
        assert(c[0] == ',');
        assert(v[p2 + 0] == c[0]);
    }
    assert(string_enc_at(v, p2 + 8, m.name));
}

/// At one position there is at most one task-list encoding.
pub proof fn lemma_list_enc_unique(v: Seq<char>, i: int, m1: TaskListModel, m2: TaskListModel)
    requires
        sits(v, i, enc_list(m1)),
        sits(v, i, enc_list(m2)),
    ensures
        m1 == m2,
{
    lemma_list_parts(v, i, m1);
    lemma_list_parts(v, i, m2);
    lemma_dec_terminated_unique(v, i + 6, m1.id, m2.id);
    let p3 = i + 6 + dec_rep(m1.id as nat).len() + 8;
    lemma_string_enc_unique(v, p3, m1.name, m2.name);
    let p5 = p3 + enc_string(m1.name).len() + 9;
    lemma_tasks_enc_unique(v, p5, m1.tasks, m2.tasks);
    assert(m1 =~= m2);
}

/// Reads one task list: succeeds exactly where a list encoding sits, and
/// returns exactly that list.
#[verifier::rlimit(60)]
#[verifier::spinoff_prover]
fn parse_list(v: &Vec<char>, i: usize) -> (r: Option<(TaskList, usize)>)
    requires
        i <= v@.len(),
    ensures
        r is Some ==> {
            let (l, j) = r->0;
            &&& i < j <= v@.len()
            &&& j == i + enc_list(l@).len()
            &&& sits(v@, i as int, enc_list(l@))
        },
        forall|m: TaskListModel| #[trigger] sits(v@, i as int, enc_list(m)) ==> r is Some && (
        r->0).0@ == m && (r->0).1 == i + enc_list(m).len(),
{
    let ghost vv = v@;
    let j0 = match eat_lit(v, i, "{\"id\":") {
        Some(j) => j,
        None => {
            proof {
                assert forall|m: TaskListModel| !(#[trigger] sits(vv, i as int, enc_list(
                    m,
                ))) by {
                    if sits(vv, i as int, enc_list(m)) {
                        lemma_list_parts(vv, i as int, m);
                    }
                }
            }
            return None;
        },
    };
    let (id, j1) = match parse_dec(v, j0) {
        Some(x) => x,
        None => {
            proof {
                assert forall|m: TaskListModel| !(#[trigger] sits(vv, i as int, enc_list(
                    m,
                ))) by {
                    if sits(vv, i as int, enc_list(m)) {
                        lemma_list_parts(vv, i as int, m);
                        reveal_strlit("{\"id\":");
                    }
                }
            }
            return None;
        },
    };
    let j2 = match eat_lit(v, j1, ",\"name\":") {
        Some(j) => j,
        None => {
            proof {
                assert forall|m: TaskListModel| !(#[trigger] sits(vv, i as int, enc_list(
                    m,
                ))) by {
                    if sits(vv, i as int, enc_list(m)) {
                        lemma_list_parts(vv, i as int, m);
                        reveal_strlit("{\"id\":");
                    }
                }
            }
            return None;
        },
    };
    let (name, j3) = match parse_quoted(v, j2) {
        Some(x) => x,
        None => {
            proof {
                assert forall|m: TaskListModel| !(#[trigger] sits(vv, i as int, enc_list(
                    m,
                ))) by {
                    if sits(vv, i as int, enc_list(m)) {
                        lemma_list_parts(vv, i as int, m);
                        reveal_strlit("{\"id\":");
                        reveal_strlit(",\"name\":");
                    }
                }
            }
            return None;
        },
    };
    let j4 = match eat_lit(v, j3, ",\"tasks\":") {
        Some(j) => j,
        None => {
            proof {
                assert forall|m: TaskListModel| !(#[trigger] sits(vv, i as int, enc_list(
                    m,
                ))) by {
                    if sits(vv, i as int, enc_list(m)) {
                        lemma_list_parts(vv, i as int, m);
                        reveal_strlit("{\"id\":");
                        reveal_strlit(",\"name\":");
                    }
                }
            }
            return None;
        },
    };
    let (tasks, j5) = match parse_tasks(v, j4) {
        Some(x) => x,
        None => {
            proof {
                assert forall|m: TaskListModel| !(#[trigger] sits(vv, i as int, enc_list(
                    m,
                ))) by {
                    if sits(vv, i as int, enc_list(m)) {
                        lemma_list_parts(vv, i as int, m);
                        reveal_strlit("{\"id\":");
                        reveal_strlit(",\"name\":");
                        reveal_strlit(",\"tasks\":");
                    }
                }
            }
            return None;
        },
    };
    let j6 = match eat_char(v, j5, '}') {
        Some(j) => j,
        None => {
            proof {
                assert forall|m: TaskListModel| !(#[trigger] sits(vv, i as int, enc_list(
                    m,
                ))) by {
                    if sits(vv, i as int, enc_list(m)) {
                        lemma_list_parts(vv, i as int, m);
                        reveal_strlit("{\"id\":");
                        reveal_strlit(",\"name\":");
                        reveal_strlit(",\"tasks\":");
                        reveal_strlit("}");
                        let p6 = i + 6 + dec_rep(m.id as nat).len() + 8 + enc_string(
                            m.name,
                        ).len() + 9 + enc_tasks(m.tasks).len();
                        assert(j5 == p6);
                        lemma_seq_at(vv, p6, "}"@);
                        assert("}"@[0] == '}');
                        assert(vv[p6 + 0] == "}"@[0]);
                    }
                }
            }
            return None;
        },
    };
    let l = TaskList { id, name, tasks };
    proof {
        reveal_strlit("{\"id\":");
        reveal_strlit(",\"name\":");
        reveal_strlit(",\"tasks\":");
        reveal_strlit("}");
        let a = "{\"id\":"@;
        let b = dec_rep(id as nat);
        let c = ",\"name\":"@;
        let d = enc_string(l.name@);
        let e = ",\"tasks\":"@;
        let g = enc_tasks(l.tasks@.map_values(|t: Task| t@));
        let h = "}"@;
        assert(sits(vv, j5 as int, h)) by {
            assert(vv.subrange(j5 as int, j5 + 1) =~= h);
        }
        assert(sits(vv, j0 as int, b));
        lemma_sits_join(vv, i as int, a, b);
        lemma_sits_join(vv, i as int, a + b, c);
        lemma_sits_join(vv, i as int, (a + b) + c, d);
        lemma_sits_join(vv, i as int, ((a + b) + c) + d, e);
        lemma_sits_join(vv, i as int, (((a + b) + c) + d) + e, g);
        lemma_sits_join(vv, i as int, ((((a + b) + c) + d) + e) + g, h);
        assert(enc_list(l@) == (((((a + b) + c) + d) + e) + g) + h);
        assert forall|m: TaskListModel| #[trigger] sits(vv, i as int, enc_list(m)) implies l@
            == m && i + enc_list(m).len() == j6 by {
            lemma_list_enc_unique(vv, i as int, l@, m);
        }
    }
    Some((l, j6))
}

/// Splits a list-array encoding at `i` into its parts: the opening bracket,
/// the first element, the comma-separated tail and the closing bracket.
pub proof fn lemma_lists_parts(v: Seq<char>, i: int, ms: Seq<TaskListModel>)
    requires
        sits(v, i, enc_lists(ms)),
    ensures
        i + 2 <= i + enc_lists(ms).len() <= v.len(),
        v[i] == '[',
        ms.len() == 0 ==> enc_lists(ms).len() == 2 && v[i + 1] == ']',
        ms.len() > 0 ==> {
            let q2 = i + 1 + enc_list(ms[0]).len();
            let e = i + enc_lists(ms).len();
            &&& sits(v, i + 1, enc_list(ms[0]))
            &&& q2 <= e <= v.len()
            &&& v.subrange(q2, e) == seq_enc_rest(
                ms.drop_first(),
                |m: TaskListModel| enc_list(m),
            ) + seq![']']
            &&& e == q2 + seq_enc_rest(ms.drop_first(), |m: TaskListModel| enc_list(m)).len() + 1
        },
{
    let f = |m: TaskListModel| enc_list(m);
    let e = i + enc_lists(ms).len();
    assert(enc_lists(ms) == (seq!['['] + seq_enc_body(ms, f)) + seq![']']);
    assert((seq!['['] + (seq_enc_body(ms, f) + seq![']'])) =~= enc_lists(ms));
    assert(sits(v, i, seq!['['] + (seq_enc_body(ms, f) + seq![']'])));
    lemma_sits_split(v, i, seq!['['], seq_enc_body(ms, f) + seq![']']);
    lemma_seq_at(v, i, seq!['[']);
    assert(v[i + 0] == seq!['['][0]);
    if ms.len() == 0 {
        assert(seq_enc_body(ms, f).len() == 0);
        lemma_seq_at(v, i + 1, seq_enc_body(ms, f) + seq![']']);
        assert(v[i + 1 + 0] == (seq_enc_body(ms, f) + seq![']'])[0]);
    } else {
        assert(seq_enc_body(ms, f) == f(ms[0]) + seq_enc_rest(ms.drop_first(), f));
        assert((f(ms[0]) + (seq_enc_rest(ms.drop_first(), f) + seq![']'])) =~= seq_enc_body(
            ms,
            f,
        ) + seq![']']);
        assert(sits(v, i + 1, f(ms[0]) + (seq_enc_rest(ms.drop_first(), f) + seq![']'])));
        lemma_sits_split(v, i + 1, f(ms[0]), seq_enc_rest(ms.drop_first(), f) + seq![']']);
        let q2 = i + 1 + enc_list(ms[0]).len();
        assert(sits(v, q2, seq_enc_rest(ms.drop_first(), f) + seq![']']));
        assert(q2 + (seq_enc_rest(ms.drop_first(), f) + seq![']']).len() == e);
    }
}

/// Reads a list array: succeeds exactly where one sits, and returns exactly
/// its lists, in order.
#[verifier::rlimit(100)]
#[verifier::spinoff_prover]
fn parse_lists(v: &Vec<char>, i: usize) -> (r: Option<(Vec<TaskList>, usize)>)
    requires
        i <= v@.len(),
    ensures
        r is Some ==> {
            let (ls, j) = r->0;
            &&& i < j <= v@.len()
            &&& j == i + enc_lists(ls@.map_values(|l: TaskList| l@)).len()
            &&& sits(v@, i as int, enc_lists(ls@.map_values(|l: TaskList| l@)))
        },
        forall|ms: Seq<TaskListModel>| #[trigger] sits(v@, i as int, enc_lists(ms)) ==> r is Some
            && (r->0).0@.map_values(|l: TaskList| l@) == ms && (r->0).1 == i + enc_lists(ms).len(),
{
    let ghost vv = v@;
    let j0 = match eat_char(v, i, '[') {
        Some(j) => j,
        None => {
            proof {
                assert forall|ms: Seq<TaskListModel>| !(#[trigger] sits(
                    vv,
                    i as int,
                    enc_lists(ms),
                )) by {
                    if sits(vv, i as int, enc_lists(ms)) {
                        lemma_lists_parts(vv, i as int, ms);
                    }
                }
            }
            return None;
        },
    };
    match eat_char(v, j0, ']') {
        Some(j1) => {
            let ls: Vec<TaskList> = Vec::new();
            proof {
                let done = ls@.map_values(|l: TaskList| l@);
                assert(done =~= Seq::<TaskListModel>::empty());
                assert(enc_lists(done) =~= seq!['[', ']']);
                assert(vv.subrange(i as int, i + 2) =~= seq!['[', ']']);
                assert(sits(vv, i as int, enc_lists(done)));
                assert forall|ms: Seq<TaskListModel>| #[trigger] sits(vv, i as int, enc_lists(ms))
                    implies done == ms && j1 == i + enc_lists(ms).len() by {
                    lemma_lists_parts(vv, i as int, ms);
                    if ms.len() > 0 {
                        lemma_enc_list_head(ms[0]);
                        lemma_seq_at(vv, i + 1, enc_list(ms[0]));
                        assert(vv[i + 1 + 0] == enc_list(ms[0])[0]);
                        assert(false);
                    }
                    assert(done =~= ms);
                }
            }
            return Some((ls, j1));
        },
        None => {},
    }
    let first = match parse_list(v, j0) {
        Some(x) => x,
        None => {
            proof {
                assert forall|ms: Seq<TaskListModel>| !(#[trigger] sits(
                    vv,
                    i as int,
                    enc_lists(ms),
                )) by {
                    if sits(vv, i as int, enc_lists(ms)) {
                        lemma_lists_parts(vv, i as int, ms);
                        if ms.len() == 0 {
                            // The bracket would have closed at once.
                            assert(vv[j0 as int] == ']');
                        }
                    }
                }
            }
            return None;
        },
    };
    let mut ls: Vec<TaskList> = Vec::new();
    ls.push(first.0);
    let mut p = first.1;
    proof {
        let done = ls@.map_values(|l: TaskList| l@);
        assert(done =~= seq![first.0@]);
        assert(done[0] == first.0@);
        assert(seq_enc_rest(done.drop_first(), |m: TaskListModel| enc_list(m)).len() == 0) by {
            assert(done.drop_first() =~= Seq::<TaskListModel>::empty());
        }
        assert(seq_enc_body(done, |m: TaskListModel| enc_list(m)) =~= enc_list(done[0]));
        assert(sits(vv, j0 as int, seq_enc_body(done, |m: TaskListModel| enc_list(m))));
    }
    loop
        invariant
            vv == v@,
            i < vv.len(),
            j0 == i + 1,
            ls@.len() >= 1,
            vv[i as int] == '[',
            p <= vv.len(),
            sits(vv, j0 as int, seq_enc_body(
                ls@.map_values(|l: TaskList| l@),
                |m: TaskListModel| enc_list(m),
            )),
            p == j0 + seq_enc_body(ls@.map_values(|l: TaskList| l@), |m: TaskListModel| enc_list(m)).len(),
        decreases vv.len() - p,
    {
        let ghost done = ls@.map_values(|l: TaskList| l@);
        let ghost f = |m: TaskListModel| enc_list(m);
        proof {
            // Common facts relating the parsed prefix to any full array here.
            assert(seq_enc_body(done, f) == enc_list(done[0]) + seq_enc_rest(
                done.drop_first(),
                f,
            ));
            lemma_sits_split(vv, j0 as int, enc_list(done[0]), seq_enc_rest(
                done.drop_first(),
                f,
            ));
            assert forall|i2: int, m1: TaskListModel, m2: TaskListModel|
                #![trigger sits(vv, i2, f(m1)), sits(vv, i2, f(m2))]
                sits(vv, i2, f(m1)) && sits(vv, i2, f(m2)) implies m1 == m2 by {
                lemma_list_enc_unique(vv, i2, m1, m2);
            }
            assert forall|ms: Seq<TaskListModel>| #[trigger] sits(vv, i as int, enc_lists(ms))
                implies {
                let e = i + enc_lists(ms).len();
                &&& ms.len() >= 1
                &&& ms[0] == done[0]
                &&& done.len() <= ms.len()
                &&& done == ms.take(done.len() as int)
                &&& (done.len() == ms.len() ==> p == e - 1 && vv[p as int] == ']')
                &&& (done.len() < ms.len() ==> vv[p as int] == ',' && p + 1 < vv.len()
                    && sits(vv, p + 1, enc_list(ms[done.len() as int])))
            } by {
                lemma_lists_parts(vv, i as int, ms);
                let e = i + enc_lists(ms).len();
                if ms.len() == 0 {
                    lemma_enc_list_head(done[0]);
                    lemma_seq_at(vv, j0 as int, enc_list(done[0]));
                    assert(vv[j0 + 0] == enc_list(done[0])[0]);
                    assert(false);
                }
                lemma_list_enc_unique(vv, j0 as int, done[0], ms[0]);
                let q2 = j0 + enc_list(done[0]).len();
                lemma_rest_peel(done.drop_first(), ms.drop_first(), f, vv, q2, e);
                assert(done.drop_first() == ms.drop_first().take(done.len() - 1));
                assert forall|k: int| 0 <= k < done.len() implies done[k] == ms[k] by {
                    if k > 0 {
                        assert(done.drop_first()[k - 1] == done[k]);
                        assert(ms.drop_first().take(done.len() - 1)[k - 1]
                            == ms.drop_first()[k - 1]);
                        assert(ms.drop_first()[k - 1] == ms[k]);
                    }
                }
                assert(done =~= ms.take(done.len() as int));
                if done.len() < ms.len() {
                    assert(ms.drop_first()[done.len() - 1] == ms[done.len() as int]);
                    lemma_enc_list_head(ms[done.len() as int]);
                }
            }
        }
        match eat_char(v, p, ']') {
            Some(j) => {
                proof {
                    assert(vv.subrange(p as int, p + 1) =~= seq![']']);
                    assert(sits(vv, p as int, seq![']']));
                    lemma_sits_join(vv, j0 as int, seq_enc_body(done, f), seq![']']);
                    assert(vv.subrange(i as int, i + 1) =~= seq!['[']);
                    assert(sits(vv, i as int, seq!['[']));
                    lemma_sits_join(vv, i as int, seq!['['], seq_enc_body(done, f)
                        + seq![']']);
                    assert((seq!['['] + (seq_enc_body(done, f) + seq![']'])) =~= enc_lists(
                        done,
                    ));
                    assert(sits(vv, i as int, enc_lists(done)));
                    assert forall|ms: Seq<TaskListModel>| #[trigger] sits(
                        vv,
                        i as int,
                        enc_lists(ms),
                    ) implies done == ms && j == i + enc_lists(ms).len() by {
                        if done.len() < ms.len() {
                            assert(vv[p as int] == ',');
                            assert(false);
                        }
                        assert(done =~= ms.take(done.len() as int));
                        assert(ms.take(ms.len() as int) =~= ms);
                    }
                }
                return Some((ls, j));
            },
            None => {},
        }
        match eat_char(v, p, ',') {
            Some(p1) => {
                match parse_list(v, p1) {
                    Some((t, q)) => {
                        ls.push(t);
                        proof {
                            let done2 = ls@.map_values(|l2: TaskList| l2@);
                            assert(done2 =~= done.push(t@));
                            assert(done2.drop_first() =~= done.drop_first().push(t@));
                            lemma_seq_enc_rest_push(done.drop_first(), t@, f);
                            assert(vv.subrange(p as int, p + 1) =~= seq![',']);
                            assert(sits(vv, p as int, seq![',']));
                            let q2 = j0 + enc_list(done[0]).len();
                            assert(sits(vv, q2, seq_enc_rest(done.drop_first(), f)));
                            lemma_sits_join(vv, q2, seq_enc_rest(done.drop_first(), f),
                                seq![',']);
                            lemma_sits_join(vv, q2, seq_enc_rest(done.drop_first(), f)
                                + seq![','], enc_list(t@));
                            assert((seq_enc_rest(done.drop_first(), f) + seq![','] + enc_list(
                                t@,
                            )) == (seq_enc_rest(done.drop_first(), f) + seq![',']) + enc_list(
                                t@,
                            ));
                            assert(sits(vv, q2, seq_enc_rest(done2.drop_first(), f)));
                            assert(done2[0] == done[0]);
                            assert(seq_enc_body(done2, f) == enc_list(done2[0])
                                + seq_enc_rest(done2.drop_first(), f));
                            assert(sits(vv, j0 as int, enc_list(done2[0])));
                            lemma_sits_join(vv, j0 as int, enc_list(done2[0]), seq_enc_rest(
                                done2.drop_first(),
                                f,
                            ));
                            assert(sits(vv, j0 as int, seq_enc_body(done2, f)));
                        }
                        p = q;
                    },
                    None => {
                        proof {
                            assert forall|ms: Seq<TaskListModel>| !(#[trigger] sits(
                                vv,
                                i as int,
                                enc_lists(ms),
                            )) by {
                                if sits(vv, i as int, enc_lists(ms)) {
                                    if done.len() == ms.len() {
                                        assert(vv[p as int] == ']');
                                    }
                                }
                            }
                        }
                        return None;
                    },
                }
            },
            None => {
                proof {
                    assert forall|ms: Seq<TaskListModel>| !(#[trigger] sits(
                        vv,
                        i as int,
                        enc_lists(ms),
                    )) by {
                        if sits(vv, i as int, enc_lists(ms)) {
                            if done.len() == ms.len() {
                                assert(vv[p as int] == ']');
                            } else {
                                assert(vv[p as int] == ',');
                            }
                        }
                    }
                }
                return None;
            },
        }
    }
}

/// Splits a board-head encoding at `i` into its parts, at their offsets.
pub proof fn lemma_board_head_parts(
    v: Seq<char>,
    i: int,
    id: u128,
    version: u64,
    created_at: u64,
    name: Seq<char>,
)
    requires
        sits(v, i, enc_board_head(id, version, created_at, name)),
    ensures
        ({
            let q1 = i + 6;
            let q2 = q1 + dec_rep(id as nat).len();
            let q3 = q2 + 11;
            let q4 = q3 + dec_rep(version as nat).len();
            let q5 = q4 + 14;
            let q6 = q5 + dec_rep(created_at as nat).len();
            let q7 = q6 + 8;
            &&& sits(v, i, "{\"id\":"@)
            &&& dec_terminated_at(v, q1, id)
            &&& sits(v, q2, ",\"version\":"@)
            &&& dec_terminated_at(v, q3, version as u128)
            &&& sits(v, q4, ",\"created_at\":"@)
            &&& dec_terminated_at(v, q5, created_at as u128)
            &&& sits(v, q6, ",\"name\":"@)
            &&& string_enc_at(v, q7, name)
            &&& i + enc_board_head(id, version, created_at, name).len() == q7 + enc_string(
                name,
            ).len()
        }),
{
    reveal_strlit("{\"id\":");
    reveal_strlit(",\"version\":");
    reveal_strlit(",\"created_at\":");
    reveal_strlit(",\"name\":");
    let a = "{\"id\":"@;
    let b = dec_rep(id as nat);
    let c = ",\"version\":"@;
    let d = dec_rep(version as nat);
    let e = ",\"created_at\":"@;
    let g = dec_rep(created_at as nat);
    let h = ",\"name\":"@;
    let sn = enc_string(name);
    assert(enc_board_head(id, version, created_at, name) == ((((((a + b) + c) + d) + e) + g)
        + h) + sn);
    lemma_sits_split(v, i, (((((a + b) + c) + d) + e) + g) + h, sn);
    lemma_sits_split(v, i, ((((a + b) + c) + d) + e) + g, h);
    lemma_sits_split(v, i, (((a + b) + c) + d) + e, g);
    lemma_sits_split(v, i, ((a + b) + c) + d, e);
    lemma_sits_split(v, i, (a + b) + c, d);
    lemma_sits_split(v, i, a + b, c);
    lemma_sits_split(v, i, a, b);
    let q1 = i + 6;
    let q2 = q1 + b.len();
    let q3 = q2 + 11;
    let q4 = q3 + d.len();
    let q5 = q4 + 14;
    let q6 = q5 + g.len();
    assert(dec_terminated_at(v, q1, id)) by {
        lemma_seq_at(v, q2, c);
        assert(c[0] == ',');
        assert(v[q2 + 0] == c[0]);
    }
    assert(dec_terminated_at(v, q3, version as u128)) by {
        lemma_seq_at(v, q4, e);
        assert(e[0] == ',');
        assert(v[q4 + 0] == e[0]);
    }
    assert(dec_terminated_at(v, q5, created_at as u128)) by {
        lemma_seq_at(v, q6, h);
        assert(h[0] == ',');
        assert(v[q6 + 0] == h[0]);
    }
    assert(string_enc_at(v, q6 + 8, name));
}

/// At one position there is at most one board-head encoding.
pub proof fn lemma_board_head_unique(
    v: Seq<char>,
    i: int,
    id1: u128,
    ver1: u64,
    cre1: u64,
    nm1: Seq<char>,
    id2: u128,
    ver2: u64,
    cre2: u64,
    nm2: Seq<char>,
)
    requires
        sits(v, i, enc_board_head(id1, ver1, cre1, nm1)),
        sits(v, i, enc_board_head(id2, ver2, cre2, nm2)),
    ensures
        id1 == id2 && ver1 == ver2 && cre1 == cre2 && nm1 == nm2,
{
    lemma_board_head_parts(v, i, id1, ver1, cre1, nm1);
    lemma_board_head_parts(v, i, id2, ver2, cre2, nm2);
    lemma_dec_terminated_unique(v, i + 6, id1, id2);
    let q3 = i + 6 + dec_rep(id1 as nat).len() + 11;
    lemma_dec_terminated_unique(v, q3, ver1 as u128, ver2 as u128);
    let q5 = q3 + dec_rep(ver1 as nat).len() + 14;
    lemma_dec_terminated_unique(v, q5, cre1 as u128, cre2 as u128);
    let q7 = q5 + dec_rep(cre1 as nat).len() + 8;
    lemma_string_enc_unique(v, q7, nm1, nm2);
}

/// Splits a board encoding at `i` into its head, the lists key, the list
/// array and the closing brace, at their offsets.
pub proof fn lemma_board_parts(v: Seq<char>, i: int, m: BoardModel)
    requires
        sits(v, i, enc_board(m)),
    ensures
        ({
            let hd = enc_board_head(m.id, m.version, m.created_at, m.name);
            let p8 = i + hd.len();
            let p9 = p8 + 9;
            let p10 = p9 + enc_lists(m.lists).len();
            &&& sits(v, i, hd)
            &&& sits(v, p8, ",\"lists\":"@)
            &&& sits(v, p9, enc_lists(m.lists))
            &&& sits(v, p10, "}"@)
            &&& i + enc_board(m).len() == p10 + 1
        }),
{
    reveal_strlit(",\"lists\":");
    reveal_strlit("}");
    let hd = enc_board_head(m.id, m.version, m.created_at, m.name);
    let l = ",\"lists\":"@;
    let z = enc_lists(m.lists);
    let w = "}"@;
    assert(enc_board(m) == ((hd + l) + z) + w);
    lemma_sits_split(v, i, (hd + l) + z, w);
    lemma_sits_split(v, i, hd + l, z);
    lemma_sits_split(v, i, hd, l);
}

/// Assembles a board encoding from its parts sitting at their offsets.
pub proof fn lemma_board_assemble(v: Seq<char>, i: int, m: BoardModel)
    requires
        ({
            let hd = enc_board_head(m.id, m.version, m.created_at, m.name);
            let p8 = i + hd.len();
            let p9 = p8 + 9;
            let p10 = p9 + enc_lists(m.lists).len();
            &&& sits(v, i, hd)
            &&& sits(v, p8, ",\"lists\":"@)
            &&& sits(v, p9, enc_lists(m.lists))
            &&& sits(v, p10, "}"@)
        }),
    ensures
        sits(v, i, enc_board(m)),
{
    reveal_strlit(",\"lists\":");
    reveal_strlit("}");
    let hd = enc_board_head(m.id, m.version, m.created_at, m.name);
    let l = ",\"lists\":"@;
    let z = enc_lists(m.lists);
    let w = "}"@;
    lemma_sits_join(v, i, hd, l);
    lemma_sits_join(v, i, hd + l, z);
    lemma_sits_join(v, i, (hd + l) + z, w);
    assert(enc_board(m) == ((hd + l) + z) + w);
}

/// At one position there is at most one board encoding.
pub proof fn lemma_board_enc_unique(v: Seq<char>, i: int, m1: BoardModel, m2: BoardModel)
    requires
        sits(v, i, enc_board(m1)),
        sits(v, i, enc_board(m2)),
    ensures
        m1 == m2,
{
    lemma_board_parts(v, i, m1);
    lemma_board_parts(v, i, m2);
    lemma_board_head_unique(
        v,
        i,
        m1.id,
        m1.version,
        m1.created_at,
        m1.name,
        m2.id,
        m2.version,
        m2.created_at,
        m2.name,
    );
    let p9 = i + enc_board_head(m1.id, m1.version, m1.created_at, m1.name).len() + 9;
    lemma_lists_enc_unique(v, p9, m1.lists, m2.lists);
    assert(m1 =~= m2);
}

/// Reads the scalar fields of a board: succeeds exactly where a board-head
/// encoding sits, and returns exactly those fields.
#[verifier::rlimit(100)]
#[verifier::spinoff_prover]
fn parse_board_head(v: &Vec<char>, i: usize) -> (r: Option<(u128, u64, u64, String, usize)>)
    requires
        i <= v@.len(),
    ensures
        r is Some ==> {
            let (id, version, created_at, name, j) = r->0;
            &&& i < j <= v@.len()
            &&& j == i + enc_board_head(id, version, created_at, name@).len()
            &&& sits(v@, i as int, enc_board_head(id, version, created_at, name@))
        },
        forall|id: u128, version: u64, created_at: u64, name: Seq<char>|
            #[trigger] sits(v@, i as int, enc_board_head(id, version, created_at, name))
                ==> r is Some && (r->0).0 == id && (r->0).1 == version && (r->0).2 == created_at
                && (r->0).3@ == name && (r->0).4 == i + enc_board_head(
                id,
                version,
                created_at,
                name,
            ).len(),
{
    let ghost vv = v@;
    let j0 = match eat_lit(v, i, "{\"id\":") {
        Some(j) => j,
        None => {
            proof {
                assert forall|id: u128, version: u64, created_at: u64, name: Seq<char>| !(
                #[trigger] sits(vv, i as int, enc_board_head(id, version, created_at, name)))
                    by {
                    if sits(vv, i as int, enc_board_head(id, version, created_at, name)) {
                        lemma_board_head_parts(vv, i as int, id, version, created_at, name);
                    }
                }
            }
            return None;
        },
    };
    let (id, j1) = match parse_dec(v, j0) {
        Some(x) => x,
        None => {
            proof {
                assert forall|id: u128, version: u64, created_at: u64, name: Seq<char>| !(
                #[trigger] sits(vv, i as int, enc_board_head(id, version, created_at, name)))
                    by {
                    if sits(vv, i as int, enc_board_head(id, version, created_at, name)) {
                        lemma_board_head_parts(vv, i as int, id, version, created_at, name);
                        reveal_strlit("{\"id\":");
                    }
                }
            }
            return None;
        },
    };
    let j2 = match eat_lit(v, j1, ",\"version\":") {
        Some(j) => j,
        None => {
            proof {
                assert forall|id: u128, version: u64, created_at: u64, name: Seq<char>| !(
                #[trigger] sits(vv, i as int, enc_board_head(id, version, created_at, name)))
                    by {
                    if sits(vv, i as int, enc_board_head(id, version, created_at, name)) {
                        lemma_board_head_parts(vv, i as int, id, version, created_at, name);
                        reveal_strlit("{\"id\":");
                    }
                }
            }
            return None;
        },
    };
    let (version128, j3) = match parse_dec(v, j2) {
        Some(x) => x,
        None => {
            proof {
                assert forall|id: u128, version: u64, created_at: u64, name: Seq<char>| !(
                #[trigger] sits(vv, i as int, enc_board_head(id, version, created_at, name)))
                    by {
                    if sits(vv, i as int, enc_board_head(id, version, created_at, name)) {
                        lemma_board_head_parts(vv, i as int, id, version, created_at, name);
                        reveal_strlit("{\"id\":");
                        reveal_strlit(",\"version\":");
                    }
                }
            }
            return None;
        },
    };
    if version128 > u64::MAX as u128 {
        // A version counter is 64 bits; no board spells a larger one.
        proof {
            assert forall|id: u128, version: u64, created_at: u64, name: Seq<char>| !(
            #[trigger] sits(vv, i as int, enc_board_head(id, version, created_at, name))) by {
                if sits(vv, i as int, enc_board_head(id, version, created_at, name)) {
                    lemma_board_head_parts(vv, i as int, id, version, created_at, name);
                    reveal_strlit("{\"id\":");
                    reveal_strlit(",\"version\":");
                }
            }
        }
        return None;
    }
    let version = version128 as u64;
    let j4 = match eat_lit(v, j3, ",\"created_at\":") {
        Some(j) => j,
        None => {
            proof {
                assert forall|id: u128, version: u64, created_at: u64, name: Seq<char>| !(
                #[trigger] sits(vv, i as int, enc_board_head(id, version, created_at, name)))
                    by {
                    if sits(vv, i as int, enc_board_head(id, version, created_at, name)) {
                        lemma_board_head_parts(vv, i as int, id, version, created_at, name);
                        reveal_strlit("{\"id\":");
                        reveal_strlit(",\"version\":");
                    }
                }
            }
            return None;
        },
    };
    let (created128, j5) = match parse_dec(v, j4) {
        Some(x) => x,
        None => {
            proof {
                assert forall|id: u128, version: u64, created_at: u64, name: Seq<char>| !(
                #[trigger] sits(vv, i as int, enc_board_head(id, version, created_at, name)))
                    by {
                    if sits(vv, i as int, enc_board_head(id, version, created_at, name)) {
                        lemma_board_head_parts(vv, i as int, id, version, created_at, name);
                        reveal_strlit("{\"id\":");
                        reveal_strlit(",\"version\":");
                        reveal_strlit(",\"created_at\":");
                    }
                }
            }
            return None;
        },
    };
    if created128 > u64::MAX as u128 {
        // A timestamp is 64 bits of milliseconds; nothing larger is spelled.
        proof {
            assert forall|id: u128, version: u64, created_at: u64, name: Seq<char>| !(
            #[trigger] sits(vv, i as int, enc_board_head(id, version, created_at, name))) by {
                if sits(vv, i as int, enc_board_head(id, version, created_at, name)) {
                    lemma_board_head_parts(vv, i as int, id, version, created_at, name);
                    reveal_strlit("{\"id\":");
                    reveal_strlit(",\"version\":");
                    reveal_strlit(",\"created_at\":");
                }
            }
        }
        return None;
    }
    let created_at = created128 as u64;
    let j6 = match eat_lit(v, j5, ",\"name\":") {
        Some(j) => j,
        None => {
            proof {
                assert forall|id: u128, version: u64, created_at: u64, name: Seq<char>| !(
                #[trigger] sits(vv, i as int, enc_board_head(id, version, created_at, name)))
                    by {
                    if sits(vv, i as int, enc_board_head(id, version, created_at, name)) {
                        lemma_board_head_parts(vv, i as int, id, version, created_at, name);
                        reveal_strlit("{\"id\":");
                        reveal_strlit(",\"version\":");
                        reveal_strlit(",\"created_at\":");
                    }
                }
            }
            return None;
        },
    };
    let (name, j7) = match parse_quoted(v, j6) {
        Some(x) => x,
        None => {
            proof {
                assert forall|id: u128, version: u64, created_at: u64, name: Seq<char>| !(
                #[trigger] sits(vv, i as int, enc_board_head(id, version, created_at, name)))
                    by {
                    if sits(vv, i as int, enc_board_head(id, version, created_at, name)) {
                        lemma_board_head_parts(vv, i as int, id, version, created_at, name);
                        reveal_strlit("{\"id\":");
                        reveal_strlit(",\"version\":");
                        reveal_strlit(",\"created_at\":");
                        reveal_strlit(",\"name\":");
                    }
                }
            }
            return None;
        },
    };
    proof {
        reveal_strlit("{\"id\":");
        reveal_strlit(",\"version\":");
        reveal_strlit(",\"created_at\":");
        reveal_strlit(",\"name\":");
        let a = "{\"id\":"@;
        let b = dec_rep(id as nat);
        let c = ",\"version\":"@;
        let d = dec_rep(version as nat);
        let e = ",\"created_at\":"@;
        let g = dec_rep(created_at as nat);
        let h = ",\"name\":"@;
        let sn = enc_string(name@);
        assert(sits(vv, j0 as int, b));
        assert(sits(vv, j2 as int, d)) by {
            assert(dec_rep(version as nat) == dec_rep(version128 as nat));
        }
        assert(sits(vv, j4 as int, g)) by {
            assert(dec_rep(created_at as nat) == dec_rep(created128 as nat));
        }
        lemma_sits_join(vv, i as int, a, b);
        lemma_sits_join(vv, i as int, a + b, c);
        lemma_sits_join(vv, i as int, (a + b) + c, d);
        lemma_sits_join(vv, i as int, ((a + b) + c) + d, e);
        lemma_sits_join(vv, i as int, (((a + b) + c) + d) + e, g);
        lemma_sits_join(vv, i as int, ((((a + b) + c) + d) + e) + g, h);
        lemma_sits_join(vv, i as int, (((((a + b) + c) + d) + e) + g) + h, sn);
        assert(enc_board_head(id, version, created_at, name@) == ((((((a + b) + c) + d) + e)
            + g) + h) + sn);
        assert forall|id2: u128, ver2: u64, cre2: u64, nm2: Seq<char>| #[trigger] sits(
            vv,
            i as int,
            enc_board_head(id2, ver2, cre2, nm2),
        ) implies id2 == id && ver2 == version && cre2 == created_at && nm2 == name@ && i
            + enc_board_head(id2, ver2, cre2, nm2).len() == j7 by {
            lemma_board_head_unique(
                vv,
                i as int,
                id,
                version,
                created_at,
                name@,
                id2,
                ver2,
                cre2,
                nm2,
            );
        }
    }
    Some((id, version, created_at, name, j7))
}

/// Reads one board: succeeds exactly where a board encoding sits, and
/// returns exactly that board.
#[verifier::rlimit(100)]
#[verifier::spinoff_prover]
fn parse_board(v: &Vec<char>, i: usize) -> (r: Option<(Board, usize)>)
    requires
        i <= v@.len(),
    ensures
        r is Some ==> {
            let (b, j) = r->0;
            &&& i < j <= v@.len()
            &&& j == i + enc_board(b@).len()
            &&& sits(v@, i as int, enc_board(b@))
        },
        forall|m: BoardModel| #[trigger] sits(v@, i as int, enc_board(m)) ==> r is Some && (
        r->0).0@ == m && (r->0).1 == i + enc_board(m).len(),
{
    let ghost vv = v@;
    let head = match parse_board_head(v, i) {
        Some(x) => x,
        None => {
            proof {
                assert forall|m: BoardModel| !(#[trigger] sits(vv, i as int, enc_board(m))) by {
                    if sits(vv, i as int, enc_board(m)) {
                        lemma_board_parts(vv, i as int, m);
                    }
                }
            }
            return None;
        },
    };
    let (id, version, created_at, name, j7) = head;
    let j8 = match eat_lit(v, j7, ",\"lists\":") {
        Some(j) => j,
        None => {
            proof {
                assert forall|m: BoardModel| !(#[trigger] sits(vv, i as int, enc_board(m))) by {
                    if sits(vv, i as int, enc_board(m)) {
                        lemma_board_parts(vv, i as int, m);
                    }
                }
            }
            return None;
        },
    };
    let (lists, j9) = match parse_lists(v, j8) {
        Some(x) => x,
        None => {
            proof {
                assert forall|m: BoardModel| !(#[trigger] sits(vv, i as int, enc_board(m))) by {
                    if sits(vv, i as int, enc_board(m)) {
                        lemma_board_parts(vv, i as int, m);
                        reveal_strlit(",\"lists\":");
                    }
                }
            }
            return None;
        },
    };
    let j10 = match eat_char(v, j9, '}') {
        Some(j) => j,
        None => {
            proof {
                assert forall|m: BoardModel| !(#[trigger] sits(vv, i as int, enc_board(m))) by {
                    if sits(vv, i as int, enc_board(m)) {
                        lemma_board_parts(vv, i as int, m);
                        reveal_strlit(",\"lists\":");
                        reveal_strlit("}");
                        let hd = enc_board_head(m.id, m.version, m.created_at, m.name);
                        let p10 = i + hd.len() + 9 + enc_lists(m.lists).len();
                        assert(j9 == p10);
                        lemma_seq_at(vv, p10, "}"@);
                        assert("}"@[0] == '}');
                        assert(vv[p10 + 0] == "}"@[0]);
                    }
                }
            }
            return None;
        },
    };
    let b = Board { id, version, created_at, name, lists };
    proof {
        reveal_strlit(",\"lists\":");
        reveal_strlit("}");
        assert(sits(vv, j9 as int, "}"@)) by {
            assert(vv.subrange(j9 as int, j9 + 1) =~= "}"@);
        }
        lemma_board_assemble(vv, i as int, b@);
        assert forall|m: BoardModel| #[trigger] sits(vv, i as int, enc_board(m)) implies b@
            == m && i + enc_board(m).len() == j10 by {
            lemma_board_enc_unique(vv, i as int, b@, m);
        }
    }
    Some((b, j10))
}

/// The canonical wire form loses nothing: two boards with the same encoding
/// are the same board, fields, list order and task order included. Together
/// with `decode_board`'s contract this is the round trip through the relay
/// path: serialize, publish, deliver verbatim, deserialize, and the original
/// board comes back.
pub proof fn lemma_enc_board_injective(m1: BoardModel, m2: BoardModel)
    requires
        enc_board(m1) == enc_board(m2),
    ensures
        m1 == m2,
{
    let v = enc_board(m1);
    assert(v.subrange(0, v.len() as int) =~= v);
    assert(sits(v, 0, enc_board(m1)));
    assert(sits(v, 0, enc_board(m2)));
    lemma_board_enc_unique(v, 0, m1, m2);
}

/// Decodes the canonical wire form of a board.
///
/// This is the watcher's side of the relay contract, and it is exact in both
/// directions: decoding returns a board exactly when the text is that board's
/// encoding. In particular, for every board `m`, decoding `enc_board(m)`
/// returns a board whose mathematical image is `m` — the round trip through
/// the relay path loses nothing, neither fields nor the order of lists and
/// tasks.
pub fn decode_board(s: &str) -> (r: Option<Board>)
    ensures
        r is Some ==> s@ == enc_board(r->0@),
        forall|m: BoardModel| s@ == enc_board(m) ==> r is Some && r->0@ == m,
{
    let v = crate::text::str_chars(s);
    match parse_board(&v, 0) {
        Some((b, j)) => {
            if j == v.len() {
                proof {
                    assert(v@.subrange(0, v@.len() as int) =~= v@);
                }
                Some(b)
            } else {
                proof {
                    assert forall|m: BoardModel| s@ != enc_board(m) by {
                        if s@ == enc_board(m) {
                            assert(v@.subrange(0, v@.len() as int) =~= v@);
                            assert(sits(v@, 0, enc_board(m)));
                        }
                    }
                }
                None
            }
        },
        None => {
            proof {
                assert forall|m: BoardModel| s@ != enc_board(m) by {
                    if s@ == enc_board(m) {
                        assert(v@.subrange(0, v@.len() as int) =~= v@);
                        assert(sits(v@, 0, enc_board(m)));
                    }
                }
            }
            None
        },
    }
}

/// At one position there is at most one list-array encoding.
pub proof fn lemma_lists_enc_unique(v: Seq<char>, i: int, ms1: Seq<TaskListModel>, ms2: Seq<
    TaskListModel,
>)
    requires
        sits(v, i, enc_lists(ms1)),
        sits(v, i, enc_lists(ms2)),
    ensures
        ms1 == ms2,
{
    let f = |m: TaskListModel| enc_list(m);
    assert forall|i2: int, m1: TaskListModel, m2: TaskListModel|
        #![trigger sits(v, i2, f(m1)), sits(v, i2, f(m2))]
        sits(v, i2, f(m1)) && sits(v, i2, f(m2)) implies m1 == m2 by {
        lemma_list_enc_unique(v, i2, m1, m2);
    }
    let e1 = i + enc_lists(ms1).len();
    let e2 = i + enc_lists(ms2).len();
    assert(enc_lists(ms1) == (seq!['['] + seq_enc_body(ms1, f)) + seq![']']);
    assert(enc_lists(ms2) == (seq!['['] + seq_enc_body(ms2, f)) + seq![']']);
    assert((seq!['['] + (seq_enc_body(ms1, f) + seq![']'])) =~= enc_lists(ms1));
    assert((seq!['['] + (seq_enc_body(ms2, f) + seq![']'])) =~= enc_lists(ms2));
    assert(sits(v, i, seq!['['] + (seq_enc_body(ms1, f) + seq![']'])));
    assert(sits(v, i, seq!['['] + (seq_enc_body(ms2, f) + seq![']'])));
    lemma_sits_split(v, i, seq!['['], seq_enc_body(ms1, f) + seq![']']);
    lemma_sits_split(v, i, seq!['['], seq_enc_body(ms2, f) + seq![']']);
    let q0 = i + 1;
    if ms1.len() == 0 || ms2.len() == 0 {
        if ms1.len() != ms2.len() {
            // One side closes at once, the other opens an element.
            let (empty_side, full_side) = if ms1.len() == 0 { (ms1, ms2) } else { (ms2, ms1) };
            assert(seq_enc_body(empty_side, f).len() == 0);
            lemma_seq_at(v, q0, seq_enc_body(empty_side, f) + seq![']']);
            assert((seq_enc_body(empty_side, f) + seq![']'])[0] == ']');
            assert(v[q0 + 0] == ']');
            assert(seq_enc_body(full_side, f) == f(full_side[0]) + seq_enc_rest(
                full_side.drop_first(),
                f,
            ));
            assert(((f(full_side[0]) + (seq_enc_rest(full_side.drop_first(), f) + seq![']'])))
                =~= seq_enc_body(full_side, f) + seq![']']);
            assert(sits(v, q0, f(full_side[0]) + (seq_enc_rest(full_side.drop_first(), f)
                + seq![']'])));
            lemma_sits_split(v, q0, f(full_side[0]), seq_enc_rest(full_side.drop_first(), f)
                + seq![']']);
            lemma_enc_list_head(full_side[0]);
            lemma_seq_at(v, q0, f(full_side[0]));
            assert(v[q0 + 0] == f(full_side[0])[0]);
            assert(false);
        }
        assert(ms1 =~= ms2);
    } else {
        assert(seq_enc_body(ms1, f) == f(ms1[0]) + seq_enc_rest(ms1.drop_first(), f));
        assert(seq_enc_body(ms2, f) == f(ms2[0]) + seq_enc_rest(ms2.drop_first(), f));
        assert((f(ms1[0]) + (seq_enc_rest(ms1.drop_first(), f) + seq![']'])) =~= seq_enc_body(
            ms1,
            f,
        ) + seq![']']);
        assert((f(ms2[0]) + (seq_enc_rest(ms2.drop_first(), f) + seq![']'])) =~= seq_enc_body(
            ms2,
            f,
        ) + seq![']']);
        assert(sits(v, q0, f(ms1[0]) + (seq_enc_rest(ms1.drop_first(), f) + seq![']'])));
        assert(sits(v, q0, f(ms2[0]) + (seq_enc_rest(ms2.drop_first(), f) + seq![']'])));
        lemma_sits_split(v, q0, f(ms1[0]), seq_enc_rest(ms1.drop_first(), f) + seq![']']);
        lemma_sits_split(v, q0, f(ms2[0]), seq_enc_rest(ms2.drop_first(), f) + seq![']']);
        assert(ms1[0] == ms2[0]);
        let q2 = q0 + f(ms1[0]).len() as int;
        assert(q2 + (seq_enc_rest(ms1.drop_first(), f) + seq![']']).len() == e1);
        assert(q2 + (seq_enc_rest(ms2.drop_first(), f) + seq![']']).len() == e2);
        assert(v.subrange(q2, e1) == seq_enc_rest(ms1.drop_first(), f) + seq![']']);
        assert(v.subrange(q2, e2) == seq_enc_rest(ms2.drop_first(), f) + seq![']']);
        lemma_sits_split(v, q2, seq_enc_rest(ms1.drop_first(), f), seq![']']);
        lemma_sits_split(v, q2, seq_enc_rest(ms2.drop_first(), f), seq![']']);
        lemma_rest_peel(ms1.drop_first(), ms2.drop_first(), f, v, q2, e2);
        if ms1.len() < ms2.len() {
            // After all of the shorter side comes its bracket, where the
            // longer side expects a comma.
            let p = q2 + seq_enc_rest(ms1.drop_first(), f).len();
            lemma_seq_at(v, p, seq![']']);
            assert(v[p + 0] == seq![']'][0]);
            assert(false);
        }
        if ms1.len() > ms2.len() {
            lemma_rest_peel(ms2.drop_first(), ms1.drop_first(), f, v, q2, e1);
            let p = q2 + seq_enc_rest(ms2.drop_first(), f).len();
            lemma_seq_at(v, p, seq![']']);
            assert(v[p + 0] == seq![']'][0]);
            assert(false);
        }
        assert(ms1.drop_first() == ms2.drop_first().take(ms1.len() - 1));
        assert(ms2.drop_first().take(ms1.len() - 1) =~= ms2.drop_first());
        assert forall|k: int| 0 <= k < ms1.len() implies ms1[k] == ms2[k] by {
            if k > 0 {
                assert(ms1.drop_first()[k - 1] == ms1[k]);
                assert(ms2.drop_first()[k - 1] == ms2[k]);
            }
        }
        assert(ms1 =~= ms2);
    }
}

} // verus!