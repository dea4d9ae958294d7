//! The text form of handles: `name`, then `_index`, then `^sup`, each part
//! optional but the name; integers in decimal.

use vstd::prelude::*;
use crate::handle::{valid_name, Bus, Handle, HandleView};

verus! {

/// `c` is an ASCII decimal digit.
pub open spec fn is_digit(c: char) -> bool {
    48 <= c as u32 <= 57
}

/// The digit character for `d` (below 10).
pub open spec fn digit_char(d: nat) -> char {
    seq!['0', '1', '2', '3', '4', '5', '6', '7', '8', '9'][d as int]
}

/// The value of a sequence of digits, most significant first.
pub open spec fn digits_value(d: Seq<char>) -> nat
    decreases d.len(),
{
    if d.len() == 0 {
        0
    } else {
        digits_value(d.drop_last()) * 10 + (d.last() as u32 - 48) as nat
    }
}

/// `d` is a non-empty sequence of digits.
pub open spec fn is_digits(d: Seq<char>) -> bool {
    d.len() >= 1 && forall|i: int| 0 <= i < d.len() ==> is_digit(#[trigger] d[i])
}

/// The decimal form of `n`, without leading zeros.
pub open spec fn nat_text(n: nat) -> Seq<char>
    decreases n,
{
    if n < 10 {
        seq![digit_char(n)]
    } else {
        nat_text(n / 10).push(digit_char(n % 10))
    }
}

/// The decimal form of `i`, with `-` before a negative number.
pub open spec fn int_text(i: int) -> Seq<char> {
    if i < 0 {
        seq!['-'] + nat_text((-i) as nat)
    } else {
        nat_text(i as nat)
    }
}

/// The text form of a handle.
pub open spec fn handle_text(h: HandleView) -> Seq<char> {
    h.0 + match h.1 {
        Some(i) => seq!['_'] + int_text(i as int),
        None => Seq::empty(),
    } + match h.2 {
        Some(s) => seq!['^'] + nat_text(s as nat),
        None => Seq::empty(),
    }
}

/// The position of the first `c` in `s`, or the length of `s` if there is
/// none.
pub open spec fn first_of(s: Seq<char>, c: char) -> int
    decreases s.len(),
{
    if s.len() == 0 {
        0
    } else if s[0] == c {
        0
    } else {
        1 + first_of(s.drop_first(), c)
    }
}

/// The digits of `t` after an optional leading `+`.
pub open spec fn unsigned_digits(t: Seq<char>) -> Seq<char> {
    if t.len() > 0 && t[0] == '+' {
        t.drop_first()
    } else {
        t
    }
}

/// The digits of `t` after an optional leading `+` or `-`.
pub open spec fn signed_digits(t: Seq<char>) -> Seq<char> {
    if t.len() > 0 && (t[0] == '+' || t[0] == '-') {
        t.drop_first()
    } else {
        t
    }
}

/// The value of a signed decimal text.
pub open spec fn signed_value(t: Seq<char>) -> int {
    if t.len() > 0 && t[0] == '-' {
        -digits_value(signed_digits(t))
    } else {
        digits_value(signed_digits(t)) as int
    }
}

/// `t` is the decimal text of an 8-bit unsigned number.
pub open spec fn is_u8_text(t: Seq<char>) -> bool {
    is_digits(unsigned_digits(t)) && digits_value(unsigned_digits(t)) <= 255
}

/// `t` is the decimal text of an 8-bit signed number.
pub open spec fn is_i8_text(t: Seq<char>) -> bool {
    is_digits(signed_digits(t)) && -128 <= signed_value(t) <= 127
}

/// The part of `s` before the superscript.
pub open spec fn before_sup(s: Seq<char>) -> Seq<char> {
    s.subrange(0, first_of(s, '^'))
}

/// The text of the superscript of `s`, if it has one.
pub open spec fn sup_text(s: Seq<char>) -> Seq<char> {
    s.subrange(first_of(s, '^') + 1, s.len() as int)
}

/// The text of the index, if `r` (without superscript) has one.
pub open spec fn index_text(r: Seq<char>) -> Seq<char> {
    r.subrange(first_of(r, '_') + 1, r.len() as int)
}

/// `s` is a well-formed text form: the index, if any, is an 8-bit signed
/// number and the superscript, if any, an 8-bit unsigned one.
pub open spec fn is_handle_text(s: Seq<char>) -> bool {
    let r = before_sup(s);
    &&& first_of(s, '^') < s.len() ==> is_u8_text(sup_text(s))
    &&& first_of(r, '_') < r.len() ==> is_i8_text(index_text(r))
}

/// The handle that the text `s` denotes.
pub open spec fn parse_text(s: Seq<char>) -> HandleView {
    let r = before_sup(s);
    (
        r.subrange(0, first_of(r, '_')),
        if first_of(r, '_') < r.len() {
            Some(signed_value(index_text(r)) as i8)
        } else {
            None
        },
        if first_of(s, '^') < s.len() {
            Some(digits_value(unsigned_digits(sup_text(s))) as u8)
        } else {
            None
        },
    )
}

proof fn lemma_first_of(s: Seq<char>, c: char, i: int)
    requires
        0 <= i <= s.len(),
        forall|j: int| 0 <= j < i ==> s[j] != c,
        i == s.len() || s[i] == c,
    ensures
        first_of(s, c) == i,
    decreases i,
{
    if i > 0 {
        lemma_first_of(s.drop_first(), c, i - 1);
    }
}

proof fn lemma_prefix_value(d: Seq<char>, i: int)
    requires
        0 <= i <= d.len(),
    ensures
        digits_value(d.subrange(0, i)) <= digits_value(d),
    decreases d.len() - i,
{
    if i < d.len() {
        lemma_prefix_value(d, i + 1);
        assert(d.subrange(0, i + 1).drop_last() =~= d.subrange(0, i));
    } else {
        assert(d.subrange(0, i) =~= d);
    }
}

proof fn lemma_nat_text(n: nat)
    ensures
        is_digits(nat_text(n)),
        digits_value(nat_text(n)) == n,
    decreases n,
{
    let d = seq!['0', '1', '2', '3', '4', '5', '6', '7', '8', '9'];
    assert(forall|k: int| 0 <= k < 10 ==> #[trigger] d[k] as u32 == 48 + k) by {
        assert(d[0] as u32 == 48);
        assert(d[1] as u32 == 49);
        assert(d[2] as u32 == 50);
        assert(d[3] as u32 == 51);
        assert(d[4] as u32 == 52);
        assert(d[5] as u32 == 53);
        assert(d[6] as u32 == 54);
        assert(d[7] as u32 == 55);
        assert(d[8] as u32 == 56);
        assert(d[9] as u32 == 57);
    }
    let t = nat_text(n);
    if n < 10 {
        assert(t.drop_last() =~= Seq::<char>::empty());
        assert(t.last() == d[n as int]);
        assert(digits_value(t) == digits_value(t.drop_last()) * 10 + (t.last() as u32 - 48) as nat);
    } else {
        lemma_nat_text(n / 10);
        let p = nat_text(n / 10);
        assert(t.drop_last() =~= p);
        assert(t.last() == d[(n % 10) as int]);
        assert(digits_value(t) == digits_value(t.drop_last()) * 10 + (t.last() as u32 - 48) as nat);
        vstd::arithmetic::div_mod::lemma_fundamental_div_mod(n as int, 10);
        assert forall|i: int| 0 <= i < t.len() implies is_digit(#[trigger] t[i]) by {
            if i < p.len() {
                assert(t[i] == p[i]);
            }
        }
    }
}

/// A digit is none of the separators of the text form.
proof fn lemma_digits_not(d: Seq<char>, c: char)
    requires
        is_digits(d),
        !is_digit(c),
    ensures
        !d.contains(c),
{
    if d.contains(c) {
        let i = choose|i: int| 0 <= i < d.len() && d[i] == c;
        assert(is_digit(d[i]));
    }
}

proof fn lemma_int_text(i: int)
    requires
        -128 <= i <= 127,
    ensures
        is_i8_text(int_text(i)),
        signed_value(int_text(i)) == i,
        !int_text(i).contains('^'),
        !int_text(i).contains('_'),
{
    assert('^' as u32 == 94);
    assert('_' as u32 == 95);
    assert('-' as u32 == 45);
    assert('+' as u32 == 43);
    let t = int_text(i);
    if i < 0 {
        let d = nat_text((-i) as nat);
        lemma_nat_text((-i) as nat);
        assert(t.drop_first() =~= d);
        assert(signed_digits(t) == d);
        lemma_digits_not(d, '^');
        lemma_digits_not(d, '_');
        assert(t =~= seq!['-'] + d);
        assert(!t.contains('^')) by {
            if t.contains('^') {
                let j = choose|j: int| 0 <= j < t.len() && t[j] == '^';
                assert(j > 0);
                assert(d[j - 1] == '^');
            }
        }
        assert(!t.contains('_')) by {
            if t.contains('_') {
                let j = choose|j: int| 0 <= j < t.len() && t[j] == '_';
                assert(j > 0);
                assert(d[j - 1] == '_');
            }
        }
    } else {
        lemma_nat_text(i as nat);
        assert(is_digit(t[0]));
        lemma_digits_not(t, '^');
        lemma_digits_not(t, '_');
    }
}

/// Parsing the text form of a handle gives the handle back.
pub proof fn lemma_text_round_trip(h: HandleView)
    requires
        valid_name(h.0),
    ensures
        is_handle_text(handle_text(h)),
        parse_text(handle_text(h)) == h,
{
    assert('^' as u32 == 94);
    assert('+' as u32 == 43);
    let name = h.0;
    let idx = match h.1 {
        Some(i) => seq!['_'] + int_text(i as int),
        None => Seq::<char>::empty(),
    };
    let sup = match h.2 {
        Some(v) => seq!['^'] + nat_text(v as nat),
        None => Seq::<char>::empty(),
    };
    let s = handle_text(h);
    let r = name + idx;
    assert(s =~= r + sup);
    if let Some(i) = h.1 {
        lemma_int_text(i as int);
    }
    assert forall|j: int| 0 <= j < r.len() implies r[j] != '^' by {
        if j < name.len() {
            assert(r[j] == name[j]);
        } else {
            let k = j - name.len();
            assert(r[j] == idx[k]);
            if k > 0 {
                assert(idx[k] == int_text(h.1.unwrap() as int)[k - 1]);
            }
        }
    }
    assert forall|j: int| 0 <= j < name.len() implies r[j] != '_' by {
        assert(r[j] == name[j]);
    }
    lemma_first_of(r, '_', name.len() as int);
    assert(r.subrange(0, name.len() as int) =~= name);
    if let Some(i) = h.1 {
        assert(index_text(r) =~= int_text(i as int));
    }
    lemma_first_of(s, '^', r.len() as int);
    assert(before_sup(s) =~= r);
    if let Some(v) = h.2 {
        lemma_nat_text(v as nat);
        let d = nat_text(v as nat);
        assert(sup_text(s) =~= d);
        assert(is_digit(d[0]));
        assert(unsigned_digits(d) == d);
    }
}

/// The position of the first `c` in `s`, or the length of `s`.
fn find_char(s: &str, c: char) -> (r: usize)
    ensures
        r as int == first_of(s@, c),
        r <= s@.len(),
{
    let n = s.unicode_len();
    let mut i: usize = 0;
    while i < n
        invariant
            n == s@.len(),
            i <= n,
            forall|j: int| 0 <= j < i ==> s@[j] != c,
        decreases n - i,
    {
        if s.get_char(i) == c {
            proof {
                lemma_first_of(s@, c, i as int);
            }
            return i;
        }
        i = i + 1;
    }
    proof {
        lemma_first_of(s@, c, i as int);
    }
    i
}

/// The value of the digits of `t` from position `from` on.
fn digits_from(t: &str, from: usize) -> (r: u32)
    requires
        from <= t@.len(),
        is_digits(t@.subrange(from as int, t@.len() as int)),
        digits_value(t@.subrange(from as int, t@.len() as int)) <= 255,
    ensures
        r == digits_value(t@.subrange(from as int, t@.len() as int)),
{
    let ghost d = t@.subrange(from as int, t@.len() as int);
    let n = t.unicode_len();
    let mut acc: u32 = 0;
    let mut i: usize = from;
    assert(d.subrange(0, 0) =~= Seq::<char>::empty());
    while i < n
        invariant
            n == t@.len(),
            from <= i <= n,
            d == t@.subrange(from as int, t@.len() as int),
            is_digits(d),
            digits_value(d) <= 255,
            acc == digits_value(d.subrange(0, i - from)),
        decreases n - i,
    {
        let ch = t.get_char(i);
        proof {
            assert(d[i - from] == ch);
            assert(d.subrange(0, i - from + 1).drop_last() =~= d.subrange(0, i - from));
            lemma_prefix_value(d, i - from + 1);
        }
        acc = acc * 10 + (ch as u32 - 48);
        i = i + 1;
    }
    assert(d.subrange(0, i - from) =~= d);
    acc
}

/// Whether `t` from position `from` on is a non-empty run of digits whose
/// value is at most `max`.
fn digits_within(t: &str, from: usize, max: u32) -> (r: bool)
    requires
        from <= t@.len(),
        max <= 255,
    ensures
        r == (is_digits(t@.subrange(from as int, t@.len() as int)) && digits_value(
            t@.subrange(from as int, t@.len() as int),
        ) <= max),
{
    let ghost d = t@.subrange(from as int, t@.len() as int);
    let n = t.unicode_len();
    if from >= n {
        return false;
    }
    let mut acc: u32 = 0;
    let mut i: usize = from;
    assert(d.subrange(0, 0) =~= Seq::<char>::empty());
    while i < n
        invariant
            n == t@.len(),
            from < n,
            from <= i <= n,
            max <= 255,
            d == t@.subrange(from as int, t@.len() as int),
            forall|j: int| 0 <= j < i - from ==> is_digit(#[trigger] d[j]),
            acc == digits_value(d.subrange(0, i - from)),
            acc <= max,
        decreases n - i,
    {
        let ch = t.get_char(i);
        assert(d[i - from] == ch);
        if !((ch as u32) >= 48 && (ch as u32) <= 57) {
            return false;
        }
        proof {
            assert(d.subrange(0, i - from + 1).drop_last() =~= d.subrange(0, i - from));
            lemma_prefix_value(d, i - from + 1);
        }
        let next = acc * 10 + (ch as u32 - 48);
        if next > max {
            return false;
        }
        acc = next;
        i = i + 1;
    }
    assert(d.subrange(0, i - from) =~= d);
    true
}

/// The 8-bit unsigned number that `t` spells.
fn parse_u8(t: &str) -> (r: u8)
    requires
        is_u8_text(t@),
    ensures
        r == digits_value(unsigned_digits(t@)),
{
    let n = t.unicode_len();
    if n > 0 && t.get_char(0) == '+' {
        assert(t@.subrange(1, t@.len() as int) =~= t@.drop_first());
        digits_from(t, 1) as u8
    } else {
        assert(t@.subrange(0, t@.len() as int) =~= t@);
        digits_from(t, 0) as u8
    }
}

/// The 8-bit signed number that `t` spells.
fn parse_i8(t: &str) -> (r: i8)
    requires
        is_i8_text(t@),
    ensures
        r == signed_value(t@),
{
    let n = t.unicode_len();
    if n > 0 && (t.get_char(0) == '+' || t.get_char(0) == '-') {
        assert(t@.subrange(1, t@.len() as int) =~= t@.drop_first());
        let negative = t.get_char(0) == '-';
        let v = digits_from(t, 1);
        if negative {
            (0 - (v as i16)) as i8
        } else {
            v as i8
        }
    } else {
        assert(t@.subrange(0, t@.len() as int) =~= t@);
        digits_from(t, 0) as i8
    }
}

/// The one-character text of digit `d`.
fn digit_str(d: u32) -> (r: &'static str)
    requires
        d < 10,
    ensures
        r@ == seq![digit_char(d as nat)],
{
    proof {
        reveal_strlit("0");
        reveal_strlit("1");
        reveal_strlit("2");
        reveal_strlit("3");
        reveal_strlit("4");
        reveal_strlit("5");
        reveal_strlit("6");
        reveal_strlit("7");
        reveal_strlit("8");
        reveal_strlit("9");
    }
    let r = match d {
        0 => "0",
        1 => "1",
        2 => "2",
        3 => "3",
        4 => "4",
        5 => "5",
        6 => "6",
        7 => "7",
        8 => "8",
        _ => "9",
    };
    assert(r@ =~= seq![digit_char(d as nat)]);
    r
}

/// Appends the decimal form of `n`.
fn write_nat(out: &mut String, n: u32)
    ensures
        final(out)@ == old(out)@ + nat_text(n as nat),
    decreases n,
{
    if n >= 10 {
        write_nat(out, n / 10);
    }
    out.append(digit_str(n % 10));
    proof {
        if n >= 10 {
            assert(final(out)@ =~= old(out)@ + nat_text(n as nat));
        } else {
            assert(final(out)@ =~= old(out)@ + nat_text(n as nat));
        }
    }
}

impl Handle {
    /// Whether `s` is a well-formed text form, one that [`Handle::parse`]
    /// accepts.
    pub fn is_text(s: &str) -> (r: bool)
        ensures
            r == is_handle_text(s@),
    {
        let n = s.unicode_len();
        let c = find_char(s, '^');
        if c < n {
            let t = s.substring_char(c + 1, n);
            let m = t.unicode_len();
            let ok = if m > 0 && t.get_char(0) == '+' {
                assert(t@.subrange(1, t@.len() as int) =~= t@.drop_first());
                digits_within(t, 1, 255)
            } else {
                assert(t@.subrange(0, t@.len() as int) =~= t@);
                digits_within(t, 0, 255)
            };
            if !ok {
                return false;
            }
        }
        let rest = s.substring_char(0, c);
        let m = rest.unicode_len();
        let u = find_char(rest, '_');
        if u < m {
            let t = rest.substring_char(u + 1, m);
            let k = t.unicode_len();
            if k > 0 && (t.get_char(0) == '+' || t.get_char(0) == '-') {
                assert(t@.subrange(1, t@.len() as int) =~= t@.drop_first());
                let max: u32 = if t.get_char(0) == '-' {
                    128
                } else {
                    127
                };
                digits_within(t, 1, max)
            } else {
                assert(t@.subrange(0, t@.len() as int) =~= t@);
                digits_within(t, 0, 127)
            }
        } else {
            true
        }
    }

    /// The handle that the text form `s` denotes.
    pub fn parse(s: &str) -> (r: Handle)
        requires
            is_handle_text(s@),
        ensures
            r@ == parse_text(s@),
    {
        let n = s.unicode_len();
        let c = find_char(s, '^');
        let sup = if c < n {
            Some(parse_u8(s.substring_char(c + 1, n)))
        } else {
            None
        };
        let rest = s.substring_char(0, c);
        let m = rest.unicode_len();
        let u = find_char(rest, '_');
        let index = if u < m {
            Some(parse_i8(rest.substring_char(u + 1, m)))
        } else {
            None
        };
        Handle { name: String::from_str(rest.substring_char(0, u)), index, sup }
    }

    /// The text form of this handle.
    pub fn text(&self) -> (r: String)
        ensures
            r@ == handle_text(self@),
    {
        let mut out = self.name.clone();
        proof {
            reveal_strlit("_");
            reveal_strlit("^");
            reveal_strlit("-");
        }
        if let Some(index) = self.index {
            out.append("_");
            if index < 0 {
                out.append("-");
                write_nat(&mut out, (0 - (index as i32)) as u32);
            } else {
                write_nat(&mut out, index as u32);
            }
        }
        if let Some(sup) = self.sup {
            out.append("^");
            write_nat(&mut out, sup as u32);
        }
        assert(out@ =~= handle_text(self@));
        out
    }
}

impl Bus {
    /// The text form of this bus: its name, then `^sup` if it has one.
    pub fn text(&self) -> (r: String)
        ensures
            r@ == self.name@ + match self.sup {
                Some(s) => seq!['^'] + nat_text(s as nat),
                None => Seq::empty(),
            },
    {
        let mut out = self.name.clone();
        proof {
            reveal_strlit("^");
        }
        if let Some(sup) = self.sup {
            out.append("^");
            write_nat(&mut out, sup as u32);
        }
        assert(out@ =~= self.name@ + match self.sup {
            Some(s) => seq!['^'] + nat_text(s as nat),
            None => Seq::empty(),
        });
        out
    }
}

} // verus!
