use vstd::prelude::*;
use vstd::std_specs::iter::IteratorSpec;

use crate::combination::{combination_from_ids, combination_of_ids, Combination};
use crate::combinatorics::{decimal_digits, ids_text, int_text};
use crate::config::RectConfiguration;

verus! {

/// The value of a decimal digit; `None` for any other character.
pub open spec fn digit_value(c: char) -> Option<int> {
    if c == '0' {
        Some(0)
    } else if c == '1' {
        Some(1)
    } else if c == '2' {
        Some(2)
    } else if c == '3' {
        Some(3)
    } else if c == '4' {
        Some(4)
    } else if c == '5' {
        Some(5)
    } else if c == '6' {
        Some(6)
    } else if c == '7' {
        Some(7)
    } else if c == '8' {
        Some(8)
    } else if c == '9' {
        Some(9)
    } else {
        None
    }
}

pub open spec fn all_digits(s: Seq<char>) -> bool {
    forall|k: int| 0 <= k < s.len() ==> (#[trigger] digit_value(s[k])) is Some
}

/// The number that the digits write, most significant first.
pub open spec fn digits_value(s: Seq<char>) -> int
    decreases s.len(),
{
    if s.len() == 0 {
        0
    } else {
        digits_value(s.drop_last()) * 10 + digit_value(s.last())->0
    }
}

/// One id: an optional minus sign and at least one decimal digit, within the range
/// of an id.
pub open spec fn field_value(f: Seq<char>) -> Option<i8> {
    let neg = f.len() > 0 && f[0] == '-';
    let digits = if neg { f.drop_first() } else { f };
    let v = if neg { -digits_value(digits) } else { digits_value(digits) };
    if digits.len() == 0 || !all_digits(digits) || v < -128 || v > 127 {
        None
    } else {
        Some(v as i8)
    }
}

/// The position of the last comma, -1 when there is none.
pub open spec fn last_comma(s: Seq<char>) -> int
    decreases s.len(),
{
    if s.len() == 0 {
        -1
    } else if s.last() == ',' {
        s.len() - 1
    } else {
        last_comma(s.drop_last())
    }
}

/// The ids of comma-separated fields, `None` when a field is not an id.
pub open spec fn fields(s: Seq<char>) -> Option<Seq<i8>>
    decreases s.len(),
{
    let p = last_comma(s);
    if p < 0 {
        match field_value(s) {
            Some(v) => Some(seq![v]),
            None => None,
        }
    } else {
        if 0 <= p < s.len() {
            match (fields(s.subrange(0, p)), field_value(s.subrange(p + 1, s.len() as int))) {
                (Some(ids), Some(v)) => Some(ids.push(v)),
                _ => None,
            }
        } else {
            None
        }
    }
}

/// The ids that a stored line lists, separated by commas; an empty line lists none.
pub open spec fn parse_ids(s: Seq<char>) -> Option<Seq<i8>> {
    if s.len() == 0 {
        Some(Seq::empty())
    } else {
        fields(s)
    }
}

proof fn lemma_last_comma(s: Seq<char>)
    ensures
        -1 <= last_comma(s) < s.len(),
        last_comma(s) >= 0 ==> s[last_comma(s)] == ',',
        forall|k: int| last_comma(s) < k < s.len() ==> s[k] != ',',
    decreases s.len(),
{
    if s.len() > 0 && s.last() != ',' {
        lemma_last_comma(s.drop_last());
        assert forall|k: int| last_comma(s) < k < s.len() implies s[k] != ',' by {
            if k < s.len() - 1 {
                assert(s[k] == s.drop_last()[k]);
            }
        }
    }
}

proof fn lemma_last_comma_of_split(s: Seq<char>, p: int)
    requires
        0 <= p < s.len(),
        s[p] == ',',
        forall|k: int| p < k < s.len() ==> s[k] != ',',
    ensures
        last_comma(s) == p,
    decreases s.len(),
{
    if s.last() != ',' {
        lemma_last_comma_of_split(s.drop_last(), p);
    }
}

proof fn lemma_no_comma(s: Seq<char>)
    requires
        forall|k: int| 0 <= k < s.len() ==> s[k] != ',',
    ensures
        last_comma(s) == -1,
    decreases s.len(),
{
    if s.len() > 0 {
        lemma_no_comma(s.drop_last());
    }
}

proof fn lemma_digit_char(n: nat)
    requires
        n < 10,
    ensures
        digit_value(seq!['0', '1', '2', '3', '4', '5', '6', '7', '8', '9'][n as int]) == Some(n as int),
{
}

proof fn lemma_decimal_digits(n: nat)
    ensures
        decimal_digits(n).len() >= 1,
        all_digits(decimal_digits(n)),
        digits_value(decimal_digits(n)) == n,
    decreases n,
{
    lemma_digit_char(n % 10);
    let d = seq!['0', '1', '2', '3', '4', '5', '6', '7', '8', '9'][(n % 10) as int];
    if n < 10 {
        assert(decimal_digits(n) == seq![d]);
        assert(seq![d].drop_last() =~= Seq::<char>::empty());
        assert(n % 10 == n);
        assert(digits_value(seq![d]) == digits_value(Seq::<char>::empty()) * 10 + digit_value(d)->0);
    } else {
        lemma_decimal_digits(n / 10);
        let s = decimal_digits(n);
        assert(s == decimal_digits(n / 10).push(d));
        assert(s.drop_last() =~= decimal_digits(n / 10));
        assert(s.last() == d);
        assert(digits_value(s) == digits_value(decimal_digits(n / 10)) * 10 + digit_value(d)->0);
        assert(n == (n / 10) * 10 + n % 10) by {
            vstd::arithmetic::div_mod::lemma_fundamental_div_mod(n as int, 10);
        }
        assert forall|k: int| 0 <= k < s.len() implies (#[trigger] digit_value(s[k])) is Some by {
            if k < s.len() - 1 {
                assert(s[k] == decimal_digits(n / 10)[k]);
            }
        }
    }
}

proof fn lemma_int_text(x: i8)
    ensures
        field_value(int_text(x as int)) == Some(x),
        forall|k: int| 0 <= k < int_text(x as int).len() ==> int_text(x as int)[k] != ',',
{
    if x < 0 {
        let n = (-(x as int)) as nat;
        lemma_decimal_digits(n);
        let t = int_text(x as int);
        assert(t == seq!['-'] + decimal_digits(n));
        assert(t.drop_first() =~= decimal_digits(n));
        assert forall|k: int| 0 <= k < t.len() implies t[k] != ',' by {
            if k > 0 {
                assert(t[k] == decimal_digits(n)[k - 1]);
                assert(digit_value(decimal_digits(n)[k - 1]) is Some);
            }
        }
    } else {
        let n = x as nat;
        lemma_decimal_digits(n);
        let t = int_text(x as int);
        assert(digit_value(t[0]) is Some);
        assert forall|k: int| 0 <= k < t.len() implies t[k] != ',' by {
            assert(digit_value(t[k]) is Some);
        }
    }
}

/// Writing ids out and reading them back gives the same ids.
pub proof fn lemma_ids_text_round_trip(ids: Seq<i8>)
    ensures
        parse_ids(ids_text(ids)) == Some(ids),
    decreases ids.len(),
{
    if ids.len() == 0 {
    } else {
        lemma_ids_text_fields(ids);
        lemma_int_text(ids[0]);
    }
}

proof fn lemma_ids_text_fields(ids: Seq<i8>)
    requires
        ids.len() > 0,
    ensures
        fields(ids_text(ids)) == Some(ids),
        ids_text(ids).len() > 0,
    decreases ids.len(),
{
    lemma_int_text(ids.last());
    lemma_decimal_digits(0);
    if ids.len() == 1 {
        let t = int_text(ids[0] as int);
        lemma_no_comma(t);
        assert(seq![ids[0]] =~= ids);
        assert(t.len() > 0) by {
            if ids[0] < 0 {
            } else {
                lemma_decimal_digits(ids[0] as nat);
            }
        }
    } else {
        let prefix = ids.drop_last();
        lemma_ids_text_fields(prefix);
        let head = ids_text(prefix);
        let tail = int_text(ids.last() as int);
        let s = ids_text(ids);
        assert(s == head + seq![','] + tail);
        let p = head.len() as int;
        assert(s[p] == ',');
        assert forall|k: int| p < k < s.len() implies s[k] != ',' by {
            assert(s[k] == tail[k - p - 1]);
        }
        lemma_last_comma_of_split(s, p);
        assert(s.subrange(0, p) =~= head);
        assert(s.subrange(p + 1, s.len() as int) =~= tail);
        assert(prefix.push(ids.last()) =~= ids);
    }
}

/// Once the fields before a comma fail, the whole line fails.
proof fn lemma_fields_fail_at(s: Seq<char>, i: int)
    requires
        0 <= i < s.len(),
        s[i] == ',',
        fields(s.subrange(0, i)) is None,
    ensures
        fields(s) is None,
    decreases s.len(),
{
    lemma_last_comma(s);
    let p = last_comma(s);
    assert(p >= i);
    if p > i {
        let t = s.subrange(0, p);
        assert(t.subrange(0, i) =~= s.subrange(0, i));
        lemma_fields_fail_at(t, i);
    } else {
        assert(p == i);
    }
}

/// The digit value of a character, for the parser.
fn digit_of(c: char) -> (r: Option<u32>)
    ensures
        r matches Some(v) ==> digit_value(c) == Some(v as int),
        r is None ==> digit_value(c) is None,
{
    match c {
        '0' => Some(0),
        '1' => Some(1),
        '2' => Some(2),
        '3' => Some(3),
        '4' => Some(4),
        '5' => Some(5),
        '6' => Some(6),
        '7' => Some(7),
        '8' => Some(8),
        '9' => Some(9),
        _ => None,
    }
}

/// What the parser knows of the current field `f`: whether it starts with a minus sign,
/// whether it has digits, whether some character after the sign is not a digit, and
/// the value of its digits, saturated above 128.
pub open spec fn field_state(f: Seq<char>, neg: bool, has_digit: bool, bad: bool, big: bool, value: u32) -> bool {
    let n = f.len() > 0 && f[0] == '-';
    let digits = if n { f.drop_first() } else { f };
    &&& neg == n
    &&& has_digit == (digits.len() > 0)
    &&& bad == !all_digits(digits)
    &&& !bad ==> (big == (digits_value(digits) > 128) && (!big ==> value == digits_value(digits)))
}

proof fn lemma_digits_value_nonneg(s: Seq<char>)
    requires
        all_digits(s),
    ensures
        digits_value(s) >= 0,
    decreases s.len(),
{
    if s.len() > 0 {
        assert(all_digits(s.drop_last())) by {
            assert forall|k: int| 0 <= k < s.drop_last().len() implies (#[trigger] digit_value(s.drop_last()[k])) is Some by {
                assert(s.drop_last()[k] == s[k]);
            }
        }
        lemma_digits_value_nonneg(s.drop_last());
        assert(digit_value(s[s.len() - 1]) is Some);
    }
}

/// The id that a finished field writes.
fn finish_field(neg: bool, has_digit: bool, bad: bool, big: bool, value: u32, Ghost(f): Ghost<Seq<char>>) -> (r: Option<i8>)
    requires
        field_state(f, neg, has_digit, bad, big, value),
    ensures
        r == field_value(f),
{
    let ghost n = f.len() > 0 && f[0] == '-';
    let ghost digits = if n { f.drop_first() } else { f };
    proof {
        if !bad {
            lemma_digits_value_nonneg(digits);
        }
    }
    if !has_digit || bad || big {
        None
    } else if neg {
        Some((0 - (value as i32)) as i8)
    } else if value > 127 {
        None
    } else {
        Some(value as i8)
    }
}

/// The ids that a stored line lists, separated by commas; `None` when a field is not
/// an id.
pub fn parse_ids_text(line: &str) -> (r: Option<Vec<i8>>)
    ensures
        r matches Some(v) ==> parse_ids(line@) == Some(v@),
        r is None ==> parse_ids(line@) is None,
{
    broadcast use vstd::string::axiom_spec_iter;

    let ghost s = line@;
    if line.is_empty() {
        return Some(Vec::new());
    }
    let mut it = line.chars();
    let mut done: Vec<i8> = Vec::new();
    let ghost mut i: int = 0;
    let ghost mut start: int = 0;
    let mut fresh = true;
    let mut neg = false;
    let mut has_digit = false;
    let mut bad = false;
    let mut big = false;
    let mut value: u32 = 0;
    proof {
        assert(s.subrange(0, 0) =~= Seq::<char>::empty());
        assert(s.subrange(0, s.len() as int) =~= s);
    }
    loop
        invariant
            s == line@,
            s.len() > 0,
            it.remaining() == s.subrange(i, s.len() as int),
            0 <= start <= i <= s.len(),
            fresh == (start == i),
            forall|k: int| start <= k < i ==> s[k] != ',',
            start > 0 ==> s[start - 1] == ',' && fields(s.subrange(0, start - 1)) == Some(done@),
            start == 0 ==> done@.len() == 0,
            field_state(s.subrange(start, i), neg, has_digit, bad, big, value),
            !bad && !big ==> value <= 128,
        ensures
            i == s.len(),
            0 <= start <= i,
            forall|k: int| start <= k < i ==> s[k] != ',',
            start > 0 ==> s[start - 1] == ',' && fields(s.subrange(0, start - 1)) == Some(done@),
            start == 0 ==> done@.len() == 0,
            field_state(s.subrange(start, i), neg, has_digit, bad, big, value),
        decreases s.len() - i,
    {
        let ghost rest = it.remaining();
        match it.next() {
            None => {
                break;
            },
            Some(c) => {
                proof {
                    assert(rest.len() > 0);
                    assert(c == s[i]);
                }
                let ghost f = s.subrange(start, i);
                let ghost f2 = s.subrange(start, i + 1);
                proof {
                    assert(f2 =~= f.push(c));
                }
                if c == ',' {
                    let got = finish_field(neg, has_digit, bad, big, value, Ghost(f));
                    match got {
                        None => {
                            proof {
                                let pre = s.subrange(0, i);
                                lemma_last_comma(pre);
                                if start == 0 {
                                    lemma_no_comma(pre);
                                    assert(pre =~= f);
                                } else {
                                    lemma_last_comma_of_split(pre, start - 1);
                                    assert(pre.subrange(0, start - 1) =~= s.subrange(0, start - 1));
                                    assert(pre.subrange(start, pre.len() as int) =~= f);
                                }
                                assert(fields(pre) is None);
                                lemma_fields_fail_at(s, i);
                            }
                            return None;
                        },
                        Some(v) => {
                            let ghost before = done@;
                            done.push(v);
                            proof {
                                let pre = s.subrange(0, i);
                                if start == 0 {
                                    lemma_no_comma(pre);
                                    assert(pre =~= f);
                                    assert(done@ =~= seq![v]);
                                } else {
                                    lemma_last_comma_of_split(pre, start - 1);
                                    assert(pre.subrange(0, start - 1) =~= s.subrange(0, start - 1));
                                    assert(pre.subrange(start, pre.len() as int) =~= f);
                                    assert(done@ =~= before.push(v));
                                }
                                assert(fields(pre) == Some(done@));
                            }
                        },
                    }
                    proof {
                        start = i + 1;
                        assert(s.subrange(start, i + 1) =~= Seq::<char>::empty());
                    }
                    fresh = true;
                    neg = false;
                    has_digit = false;
                    bad = false;
                    big = false;
                    value = 0;
                } else {
                    let ghost n0 = f.len() > 0 && f[0] == '-';
                    let ghost digits = if n0 { f.drop_first() } else { f };
                    if fresh && c == '-' {
                        neg = true;
                        proof {
                            assert(f2.drop_first() =~= Seq::<char>::empty());
                        }
                    } else {
                        proof {
                            let n2 = f2.len() > 0 && f2[0] == '-';
                            assert(n2 == n0);
                            let digits2 = if n2 { f2.drop_first() } else { f2 };
                            assert(digits2 =~= digits.push(c));
                            assert(digits2.drop_last() =~= digits);
                            assert(all_digits(digits2) == (all_digits(digits) && digit_value(c) is Some)) by {
                                if all_digits(digits2) {
                                    assert(digit_value(digits2[digits2.len() - 1]) is Some);
                                    assert forall|k: int| 0 <= k < digits.len() implies (#[trigger] digit_value(digits[k])) is Some by {
                                        assert(digits2[k] == digits[k]);
                                    }
                                }
                                if all_digits(digits) && digit_value(c) is Some {
                                    assert forall|k: int| 0 <= k < digits2.len() implies (#[trigger] digit_value(digits2[k])) is Some by {
                                        if k < digits.len() {
                                            assert(digits2[k] == digits[k]);
                                        }
                                    }
                                }
                            }
                        }
                        has_digit = true;
                        match digit_of(c) {
                            None => {
                                bad = true;
                            },
                            Some(dv) => {
                                if !bad && !big {
                                    value = value * 10 + dv;
                                    if value > 128 {
                                        big = true;
                                    }
                                } else if !bad {
                                    proof {
                                        lemma_digits_value_nonneg(digits);
                                    }
                                }
                            },
                        }
                    }
                    fresh = false;
                }
                proof {
                    i = i + 1;
                }
            },
        }
    }
    let ghost f = s.subrange(start, i);
    let got = finish_field(neg, has_digit, bad, big, value, Ghost(f));
    proof {
        lemma_last_comma(s);
        if start == 0 {
            lemma_no_comma(s);
            assert(s =~= f);
        } else {
            lemma_last_comma_of_split(s, start - 1);
        }
    }
    match got {
        None => None,
        Some(v) => {
            let ghost before = done@;
            done.push(v);
            proof {
                if start == 0 {
                    assert(done@ =~= seq![v]);
                } else {
                    assert(done@ =~= before.push(v));
                }
            }
            Some(done)
        },
    }
}

/// The combination that a stored line lists: its ids separated by commas. `None` when
/// a field is not an id or an id names no piece of the inventory.
pub fn combination_from_string(cfg: &RectConfiguration, line: &str) -> (r: Option<Combination>)
    ensures
        parse_ids(line@) is None ==> r is None,
        parse_ids(line@) matches Some(ids) ==> combination_of_ids(cfg.available_blocks@, ids, r),
{
    match parse_ids_text(line) {
        None => None,
        Some(ids) => combination_from_ids(cfg, &ids),
    }
}

} // verus!
