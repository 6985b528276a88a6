//! Character classes and line-level text operations: whitespace trimming,
//! splitting a text into lines, and rejoining the nonempty trimmed lines.

use vstd::prelude::*;
use vstd::string::StringExecFns;

verus! {

/// The Unicode `White_Space` code points, the set that `str::trim` removes.
pub open spec fn is_space(c: char) -> bool {
    let u = c as u32;
    (9 <= u && u <= 13) || u == 32 || u == 0x85 || u == 0xa0 || u == 0x1680
        || (0x2000 <= u && u <= 0x200a) || u == 0x2028 || u == 0x2029 || u == 0x202f
        || u == 0x205f || u == 0x3000
}

pub open spec fn is_digit(c: char) -> bool {
    48 <= c as u32 && c as u32 <= 57
}

pub open spec fn digit_val(c: char) -> nat {
    (c as u32 - 48) as nat
}

/// Decides membership in the Unicode `White_Space` set.
pub fn char_is_space(c: char) -> (r: bool)
    ensures
        r == is_space(c),
{
    let u = c as u32;
    (9 <= u && u <= 13) || u == 32 || u == 0x85 || u == 0xa0 || u == 0x1680
        || (0x2000 <= u && u <= 0x200a) || u == 0x2028 || u == 0x2029 || u == 0x202f
        || u == 0x205f || u == 0x3000
}

pub fn char_is_digit(c: char) -> (r: bool)
    ensures
        r == is_digit(c),
{
    let u = c as u32;
    48 <= u && u <= 57
}

/// Index of the first line break at or after `i`, or `s.len()` if there is none.
pub open spec fn find_nl(s: Seq<char>, i: int) -> int
    decreases s.len() - i,
{
    if i < 0 || i >= s.len() {
        s.len() as int
    } else if s[i] == '\n' {
        i
    } else {
        find_nl(s, i + 1)
    }
}

/// Index of the first non-whitespace character at or after `i`, or `s.len()`.
pub open spec fn first_non_space(s: Seq<char>, i: int) -> int
    decreases s.len() - i,
{
    if i < 0 || i >= s.len() {
        s.len() as int
    } else if !is_space(s[i]) {
        i
    } else {
        first_non_space(s, i + 1)
    }
}

/// End (exclusive) of the last non-whitespace character strictly before `j`, or `0`.
pub open spec fn last_non_space_end(s: Seq<char>, j: int) -> int
    decreases j,
{
    if j <= 0 || j > s.len() {
        0
    } else if is_space(s[j - 1]) {
        last_non_space_end(s, j - 1)
    } else {
        j
    }
}

/// What `str::trim` leaves: the span between the first and last non-whitespace
/// characters, or the empty sequence when every character is whitespace.
pub open spec fn trim_seq(s: Seq<char>) -> Seq<char> {
    let a = first_non_space(s, 0);
    let b = last_non_space_end(s, s.len() as int);
    if a >= b {
        Seq::empty()
    } else {
        s.subrange(a, b)
    }
}

/// The lines of `s`, split at each `'\n'`; the empty text has one empty line.
pub open spec fn split_lines(s: Seq<char>) -> Seq<Seq<char>>
    decreases s.len(),
{
    let k = find_nl(s, 0);
    if k < 0 || k >= s.len() {
        seq![s]
    } else {
        seq![s.take(k)] + split_lines(s.skip(k + 1))
    }
}

pub open spec fn trim_all(ls: Seq<Seq<char>>) -> Seq<Seq<char>> {
    ls.map_values(|l: Seq<char>| trim_seq(l))
}

/// The lines that are left after the empty ones are discarded.
pub open spec fn drop_empty(ls: Seq<Seq<char>>) -> Seq<Seq<char>>
    decreases ls.len(),
{
    if ls.len() == 0 {
        Seq::empty()
    } else {
        let rest = drop_empty(ls.drop_first());
        if ls[0].len() > 0 {
            seq![ls[0]] + rest
        } else {
            rest
        }
    }
}

/// The lines joined with a single `'\n'` between consecutive lines.
pub open spec fn join_lines(ls: Seq<Seq<char>>) -> Seq<char>
    decreases ls.len(),
{
    if ls.len() == 0 {
        Seq::empty()
    } else if ls.len() == 1 {
        ls[0]
    } else {
        ls[0] + seq!['\n'] + join_lines(ls.drop_first())
    }
}

pub open spec fn clean_of_lines(ls: Seq<Seq<char>>) -> Seq<char> {
    join_lines(drop_empty(trim_all(ls)))
}

/// Line-level tidying of a text: trim every line, drop the lines that become
/// empty, and rejoin the survivors with single line breaks.
pub open spec fn clean_lines(s: Seq<char>) -> Seq<char> {
    clean_of_lines(split_lines(s))
}

/// A scan that stops at the first non-whitespace character finds
/// `first_non_space`.
pub proof fn lemma_first_non_space_at(s: Seq<char>, i: int, a: int)
    requires
        0 <= i <= a <= s.len(),
        forall|k: int| i <= k < a ==> is_space(#[trigger] s[k]),
        a == s.len() || !is_space(s[a]),
    ensures
        first_non_space(s, i) == a,
    decreases a - i,
{
    if i < a {
        lemma_first_non_space_at(s, i + 1, a);
    }
}

/// A backward scan that stops at the last non-whitespace character finds
/// `last_non_space_end`.
proof fn lemma_last_non_space_end_at(s: Seq<char>, j: int, b: int)
    requires
        0 <= b <= j <= s.len(),
        forall|k: int| b <= k < j ==> is_space(#[trigger] s[k]),
        b == 0 || !is_space(s[b - 1]),
    ensures
        last_non_space_end(s, j) == b,
    decreases j - b,
{
    if b < j {
        lemma_last_non_space_end_at(s, j - 1, b);
    }
}

/// A scan that stops at the first line break finds `find_nl`.
proof fn lemma_find_nl_at(s: Seq<char>, i: int, a: int)
    requires
        0 <= i <= a <= s.len(),
        forall|k: int| i <= k < a ==> #[trigger] s[k] != '\n',
        a == s.len() || s[a] == '\n',
    ensures
        find_nl(s, i) == a,
    decreases a - i,
{
    if i < a {
        lemma_find_nl_at(s, i + 1, a);
    }
}

/// The character for one decimal digit.
pub open spec fn digit_char(d: nat) -> char {
    if d == 0 {
        '0'
    } else if d == 1 {
        '1'
    } else if d == 2 {
        '2'
    } else if d == 3 {
        '3'
    } else if d == 4 {
        '4'
    } else if d == 5 {
        '5'
    } else if d == 6 {
        '6'
    } else if d == 7 {
        '7'
    } else if d == 8 {
        '8'
    } else {
        '9'
    }
}

/// The decimal digits of `n`, most significant first, with no leading zero
/// except for `n == 0` itself.
pub open spec fn dec_digits(n: nat) -> Seq<char>
    decreases n,
{
    if n < 10 {
        seq![digit_char(n)]
    } else {
        dec_digits(n / 10) + seq![digit_char(n % 10)]
    }
}

pub open spec fn all_digits(d: Seq<char>) -> bool {
    forall|i: int| 0 <= i < d.len() ==> is_digit(#[trigger] d[i])
}

/// The numeric value of a digit sequence read in base ten.
pub open spec fn val_of_digits(d: Seq<char>) -> nat
    decreases d.len(),
{
    if d.len() == 0 {
        0
    } else {
        val_of_digits(d.drop_last()) * 10 + digit_val(d.last())
    }
}

/// Splits `s` into its maximal leading digit run and the rest.
pub open spec fn take_digits(s: Seq<char>) -> (Seq<char>, Seq<char>)
    decreases s.len(),
{
    if s.len() > 0 && is_digit(s[0]) {
        let (d, r) = take_digits(s.drop_first());
        (seq![s[0]] + d, r)
    } else {
        (Seq::empty(), s)
    }
}

pub proof fn lemma_digit_char_val(d: nat)
    requires
        d < 10,
    ensures
        is_digit(digit_char(d)),
        digit_val(digit_char(d)) == d,
{
    assert('0' as u32 == 48);
    assert('1' as u32 == 49);
    assert('2' as u32 == 50);
    assert('3' as u32 == 51);
    assert('4' as u32 == 52);
    assert('5' as u32 == 53);
    assert('6' as u32 == 54);
    assert('7' as u32 == 55);
    assert('8' as u32 == 56);
    assert('9' as u32 == 57);
}

pub proof fn lemma_dec_digits_form(n: nat)
    ensures
        dec_digits(n).len() >= 1,
        all_digits(dec_digits(n)),
    decreases n,
{
    if n >= 10 {
        lemma_dec_digits_form(n / 10);
        assert(is_digit(digit_char(n % 10)));
        assert forall|i: int| 0 <= i < dec_digits(n).len() implies is_digit(
            #[trigger] dec_digits(n)[i],
        ) by {
            if i < dec_digits(n / 10).len() {
                assert(dec_digits(n)[i] == dec_digits(n / 10)[i]);
            }
        }
    }
}

pub proof fn lemma_val_of_dec_digits(n: nat)
    ensures
        val_of_digits(dec_digits(n)) == n,
    decreases n,
{
    assert(dec_digits(n).len() >= 1);
    assert(val_of_digits(dec_digits(n)) == val_of_digits(dec_digits(n).drop_last()) * 10
        + digit_val(dec_digits(n).last()));
    if n < 10 {
        lemma_digit_char_val(n);
        assert(dec_digits(n).drop_last() =~= Seq::<char>::empty());
        assert(dec_digits(n).last() == digit_char(n));
        assert(val_of_digits(Seq::<char>::empty()) == 0);
    } else {
        lemma_val_of_dec_digits(n / 10);
        lemma_digit_char_val(n % 10);
        assert(dec_digits(n).drop_last() =~= dec_digits(n / 10));
        assert(dec_digits(n).last() == digit_char(n % 10));
        assert(val_of_digits(dec_digits(n)) == (n / 10) * 10 + n % 10);
        assert((n / 10) * 10 + n % 10 == n) by (nonlinear_arith);
    }
}

/// A digit run followed by a non-digit (or nothing) is exactly what
/// `take_digits` splits off.
pub proof fn lemma_take_digits_exact(d: Seq<char>, r: Seq<char>)
    requires
        all_digits(d),
        r.len() == 0 || !is_digit(r[0]),
    ensures
        take_digits(d + r) == (d, r),
    decreases d.len(),
{
    if d.len() == 0 {
        assert(d + r =~= r);
        assert(take_digits(r) == (Seq::<char>::empty(), r));
        assert(take_digits(d + r).0 =~= d);
    } else {
        assert((d + r)[0] == d[0]);
        assert((d + r).drop_first() =~= d.drop_first() + r);
        assert(all_digits(d.drop_first()));
        lemma_take_digits_exact(d.drop_first(), r);
        assert(take_digits(d + r).0 =~= seq![d[0]] + d.drop_first());
        assert(seq![d[0]] + d.drop_first() =~= d);
    }
}

/// Digit values only grow as more digits are appended on the right.
pub proof fn lemma_val_of_digits_prefix(d: Seq<char>, k: int)
    requires
        0 <= k <= d.len(),
    ensures
        val_of_digits(d.take(k)) <= val_of_digits(d),
    decreases d.len() - k,
{
    if k < d.len() {
        lemma_val_of_digits_prefix(d, k + 1);
        assert(d.take(k + 1).drop_last() =~= d.take(k));
        assert(d.take(k + 1).last() == d[k]);
        assert(val_of_digits(d.take(k)) <= val_of_digits(d.take(k)) * 10 + digit_val(d[k]));
    } else {
        assert(d.take(k) =~= d);
    }
}

/// One decimal digit as text.
pub(crate) fn digit_str(d: u64) -> (r: String)
    requires
        d < 10,
    ensures
        r@ == seq![digit_char(d as nat)],
{
    let r: String = if d == 0 {
        "0".to_owned()
    } else if d == 1 {
        "1".to_owned()
    } else if d == 2 {
        "2".to_owned()
    } else if d == 3 {
        "3".to_owned()
    } else if d == 4 {
        "4".to_owned()
    } else if d == 5 {
        "5".to_owned()
    } else if d == 6 {
        "6".to_owned()
    } else if d == 7 {
        "7".to_owned()
    } else if d == 8 {
        "8".to_owned()
    } else {
        "9".to_owned()
    };
    proof {
        reveal_strlit("0");
        reveal_strlit("1");
        reveal_strlit("2");
        reveal_strlit("3");
        reveal_strlit("4");
        reveal_strlit("5");
        reveal_strlit("6");
        reveal_strlit("7");
        reveal_strlit("8");
        reveal_strlit("9");
        assert(r@ =~= seq![digit_char(d as nat)]);
    }
    r
}

proof fn lemma_drop_empty_push(ls: Seq<Seq<char>>, l: Seq<char>)
    ensures
        l.len() > 0 ==> drop_empty(ls.push(l)) == drop_empty(ls).push(l),
        l.len() == 0 ==> drop_empty(ls.push(l)) == drop_empty(ls),
    decreases ls.len(),
{
    if ls.len() == 0 {
        assert(ls.push(l).drop_first() =~= Seq::<Seq<char>>::empty());
        assert(ls.push(l)[0] == l);
        assert(drop_empty(Seq::<Seq<char>>::empty()) =~= Seq::<Seq<char>>::empty());
        assert(drop_empty(ls) =~= Seq::<Seq<char>>::empty());
        if l.len() > 0 {
            assert(drop_empty(ls.push(l)) == seq![l] + Seq::<Seq<char>>::empty());
            assert(seq![l] + Seq::<Seq<char>>::empty() =~= drop_empty(ls).push(l));
        }
    } else {
        assert(ls.push(l).drop_first() =~= ls.drop_first().push(l));
        assert(ls.push(l)[0] == ls[0]);
        lemma_drop_empty_push(ls.drop_first(), l);
        if ls[0].len() > 0 {
            assert(drop_empty(ls.push(l)) == seq![ls[0]] + drop_empty(ls.drop_first().push(l)));
            assert(drop_empty(ls) == seq![ls[0]] + drop_empty(ls.drop_first()));
            if l.len() > 0 {
                assert(seq![ls[0]] + drop_empty(ls.drop_first()).push(l) =~= (seq![ls[0]]
                    + drop_empty(ls.drop_first())).push(l));
            }
        } else {
            assert(drop_empty(ls.push(l)) == drop_empty(ls.drop_first().push(l)));
            assert(drop_empty(ls) == drop_empty(ls.drop_first()));
        }
    }
}

proof fn lemma_drop_empty_nonempty(ls: Seq<Seq<char>>)
    ensures
        forall|i: int| 0 <= i < drop_empty(ls).len() ==> #[trigger] drop_empty(ls)[i].len() > 0,
    decreases ls.len(),
{
    if ls.len() > 0 {
        lemma_drop_empty_nonempty(ls.drop_first());
        let rest = drop_empty(ls.drop_first());
        if ls[0].len() > 0 {
            assert forall|i: int| 0 <= i < drop_empty(ls).len() implies #[trigger] drop_empty(
                ls,
            )[i].len() > 0 by {
                if i > 0 {
                    assert(drop_empty(ls)[i] == rest[i - 1]);
                }
            }
        }
    }
}

proof fn lemma_trim_all_push(ls: Seq<Seq<char>>, l: Seq<char>)
    ensures
        trim_all(ls.push(l)) == trim_all(ls).push(trim_seq(l)),
{
    assert(trim_all(ls.push(l)) =~= trim_all(ls).push(trim_seq(l)));
}

proof fn lemma_join_lines_push(ms: Seq<Seq<char>>, m: Seq<char>)
    ensures
        ms.len() == 0 ==> join_lines(ms.push(m)) == m,
        ms.len() > 0 ==> join_lines(ms.push(m)) == join_lines(ms) + seq!['\n'] + m,
    decreases ms.len(),
{
    if ms.len() == 0 {
        assert(ms.push(m) =~= seq![m]);
    } else {
        assert(ms.push(m).drop_first() =~= ms.drop_first().push(m));
        assert(ms.push(m)[0] == ms[0]);
        lemma_join_lines_push(ms.drop_first(), m);
        if ms.drop_first().len() == 0 {
            assert(join_lines(ms) == ms[0]);
            assert(join_lines(ms.push(m)) == ms[0] + seq!['\n'] + m);
        } else {
            let x = ms[0];
            let y = join_lines(ms.drop_first());
            assert(join_lines(ms.push(m)) == x + seq!['\n'] + (y + seq!['\n'] + m));
            assert(x + seq!['\n'] + (y + seq!['\n'] + m) =~= (x + seq!['\n'] + y) + seq!['\n']
                + m);
        }
    }
}

/// Joining nonempty lines gives empty text exactly when there are no lines.
proof fn lemma_join_lines_len(ms: Seq<Seq<char>>)
    requires
        forall|i: int| 0 <= i < ms.len() ==> #[trigger] ms[i].len() > 0,
    ensures
        (join_lines(ms).len() == 0) == (ms.len() == 0),
    decreases ms.len(),
{
    if ms.len() > 0 {
        lemma_join_lines_len(ms.drop_first());
    }
}

proof fn lemma_first_non_space_props(s: Seq<char>, i: int)
    requires
        0 <= i <= s.len(),
    ensures
        i <= first_non_space(s, i) <= s.len(),
        forall|k: int| i <= k < first_non_space(s, i) ==> is_space(#[trigger] s[k]),
        first_non_space(s, i) < s.len() ==> !is_space(s[first_non_space(s, i)]),
    decreases s.len() - i,
{
    if i < s.len() && is_space(s[i]) {
        lemma_first_non_space_props(s, i + 1);
    }
}

proof fn lemma_last_non_space_end_props(s: Seq<char>, j: int)
    requires
        0 <= j <= s.len(),
    ensures
        0 <= last_non_space_end(s, j) <= j,
        forall|k: int| last_non_space_end(s, j) <= k < j ==> is_space(#[trigger] s[k]),
        last_non_space_end(s, j) > 0 ==> !is_space(s[last_non_space_end(s, j) - 1]),
    decreases j,
{
    if j > 0 && is_space(s[j - 1]) {
        lemma_last_non_space_end_props(s, j - 1);
    }
}

proof fn lemma_find_nl_props(s: Seq<char>, i: int)
    requires
        0 <= i <= s.len(),
    ensures
        i <= find_nl(s, i) <= s.len(),
        forall|k: int| i <= k < find_nl(s, i) ==> #[trigger] s[k] != '\n',
        find_nl(s, i) < s.len() ==> s[find_nl(s, i)] == '\n',
    decreases s.len() - i,
{
    if i < s.len() && s[i] != '\n' {
        lemma_find_nl_props(s, i + 1);
    }
}

/// Trimming is idempotent, and a trimmed text has no line break if its
/// source had none.
pub proof fn lemma_trim_seq_idempotent(s: Seq<char>)
    ensures
        trim_seq(trim_seq(s)) == trim_seq(s),
{
    lemma_first_non_space_props(s, 0);
    lemma_last_non_space_end_props(s, s.len() as int);
    let a = first_non_space(s, 0);
    let b = last_non_space_end(s, s.len() as int);
    let t = trim_seq(s);
    if a >= b {
        assert(t =~= Seq::<char>::empty());
        assert(first_non_space(t, 0) == 0);
        assert(last_non_space_end(t, 0) == 0);
        assert(trim_seq(t) =~= Seq::<char>::empty());
    } else {
        assert(t == s.subrange(a, b));
        assert(!is_space(t[0]));
        assert(!is_space(t[t.len() - 1]));
        lemma_first_non_space_at(t, 0, 0);
        lemma_last_non_space_end_at(t, t.len() as int, t.len() as int);
        assert(t.subrange(0, t.len() as int) =~= t);
    }
}

/// Every character of a trimmed text comes from the source text.
proof fn lemma_trim_seq_chars(s: Seq<char>)
    ensures
        forall|k: int|
            0 <= k < trim_seq(s).len() ==> exists|j: int|
                0 <= j < s.len() && #[trigger] trim_seq(s)[k] == s[j],
{
    lemma_first_non_space_props(s, 0);
    lemma_last_non_space_end_props(s, s.len() as int);
    let a = first_non_space(s, 0);
    let b = last_non_space_end(s, s.len() as int);
    if a < b {
        assert forall|k: int| 0 <= k < trim_seq(s).len() implies exists|j: int|
            0 <= j < s.len() && #[trigger] trim_seq(s)[k] == s[j] by {
            assert(trim_seq(s)[k] == s[a + k]);
        }
    }
}

/// A property that holds of every line holds of every kept line.
proof fn lemma_drop_empty_all(ls: Seq<Seq<char>>, p: spec_fn(Seq<char>) -> bool)
    requires
        forall|j: int| 0 <= j < ls.len() ==> p(#[trigger] ls[j]),
    ensures
        forall|i: int| 0 <= i < drop_empty(ls).len() ==> p(#[trigger] drop_empty(ls)[i]),
    decreases ls.len(),
{
    if ls.len() > 0 {
        assert forall|j: int| 0 <= j < ls.drop_first().len() implies p(
            #[trigger] ls.drop_first()[j],
        ) by {
            assert(ls.drop_first()[j] == ls[j + 1]);
        }
        lemma_drop_empty_all(ls.drop_first(), p);
        let rest = drop_empty(ls.drop_first());
        if ls[0].len() > 0 {
            assert forall|i: int| 0 <= i < drop_empty(ls).len() implies p(
                #[trigger] drop_empty(ls)[i],
            ) by {
                if i > 0 {
                    assert(drop_empty(ls)[i] == rest[i - 1]);
                }
            }
        }
    }
}

/// Dropping empty lines keeps a sequence of nonempty lines as it is.
proof fn lemma_drop_empty_id(ls: Seq<Seq<char>>)
    requires
        forall|j: int| 0 <= j < ls.len() ==> #[trigger] ls[j].len() > 0,
    ensures
        drop_empty(ls) == ls,
    decreases ls.len(),
{
    if ls.len() > 0 {
        assert forall|j: int| 0 <= j < ls.drop_first().len() implies #[trigger] ls.drop_first()[j].len()
            > 0 by {
            assert(ls.drop_first()[j] == ls[j + 1]);
        }
        lemma_drop_empty_id(ls.drop_first());
        assert(seq![ls[0]] + ls.drop_first() =~= ls);
    }
}

/// Splitting the join of nonempty, line-break-free lines gives the lines back.
proof fn lemma_split_join(ms: Seq<Seq<char>>)
    requires
        ms.len() > 0,
        forall|i: int| 0 <= i < ms.len() ==> #[trigger] ms[i].len() > 0,
        forall|i: int, j: int| 0 <= i < ms.len() && 0 <= j < ms[i].len() ==> #[trigger] ms[i][j]
            != '\n',
    ensures
        split_lines(join_lines(ms)) == ms,
    decreases ms.len(),
{
    let j = join_lines(ms);
    if ms.len() == 1 {
        assert(j == ms[0]);
        lemma_find_nl_at(j, 0, j.len() as int);
        assert(seq![j] =~= ms);
    } else {
        let rest = join_lines(ms.drop_first());
        assert(j == ms[0] + seq!['\n'] + rest);
        let k = ms[0].len() as int;
        assert forall|t: int| 0 <= t < k implies #[trigger] j[t] != '\n' by {
            assert(j[t] == ms[0][t]);
        }
        assert(j[k] == '\n');
        lemma_find_nl_at(j, 0, k);
        assert(j.take(k) =~= ms[0]);
        assert(j.skip(k + 1) =~= rest);
        assert forall|i: int, t: int|
            0 <= i < ms.drop_first().len() && 0 <= t < ms.drop_first()[i].len() implies #[trigger] ms.drop_first()[i][t]
            != '\n' by {
            assert(ms.drop_first()[i] == ms[i + 1]);
        }
        assert forall|i: int| 0 <= i < ms.drop_first().len() implies #[trigger] ms.drop_first()[i].len()
            > 0 by {
            assert(ms.drop_first()[i] == ms[i + 1]);
        }
        lemma_split_join(ms.drop_first());
        assert(seq![ms[0]] + ms.drop_first() =~= ms);
    }
}

/// Line-level tidying is idempotent.
pub proof fn lemma_clean_lines_idempotent(s: Seq<char>)
    ensures
        clean_lines(clean_lines(s)) == clean_lines(s),
{
    let ls = split_lines(s);
    let m = drop_empty(trim_all(ls));
    let r = clean_lines(s);
    lemma_drop_empty_nonempty(trim_all(ls));
    if m.len() == 0 {
        assert(r =~= Seq::<char>::empty());
        assert(find_nl(r, 0) == 0);
        assert(split_lines(r) =~= seq![Seq::<char>::empty()]);
        assert(trim_seq(Seq::<char>::empty()) =~= Seq::<char>::empty());
        assert(trim_all(split_lines(r)) =~= seq![Seq::<char>::empty()]);
        assert(seq![Seq::<char>::empty()].drop_first() =~= Seq::<Seq<char>>::empty());
        assert(drop_empty(Seq::<Seq<char>>::empty()) =~= Seq::<Seq<char>>::empty());
        assert(drop_empty(trim_all(split_lines(r))) =~= Seq::<Seq<char>>::empty());
        assert(clean_lines(r) =~= r);
    } else {
        // every kept line is trimmed and has no line break
        assert forall|i: int| 0 <= i < trim_all(ls).len() implies trim_seq(
            #[trigger] trim_all(ls)[i],
        ) == trim_all(ls)[i] && (forall|t: int|
            0 <= t < trim_all(ls)[i].len() ==> #[trigger] trim_all(ls)[i][t] != '\n') by {
            lemma_trim_seq_idempotent(ls[i]);
            lemma_split_lines_no_nl(s, i);
            lemma_trim_seq_chars(ls[i]);
        }
        lemma_drop_empty_all(
            trim_all(ls),
            |l: Seq<char>|
                trim_seq(l) == l && (forall|t: int| 0 <= t < l.len() ==> #[trigger] l[t] != '\n'),
        );
        assert forall|i: int, t: int| 0 <= i < m.len() && 0 <= t < m[i].len() implies #[trigger] m[i][t]
            != '\n' by {
            assert(trim_seq(m[i]) == m[i] && (forall|u: int|
                0 <= u < m[i].len() ==> #[trigger] m[i][u] != '\n'));
        }
        lemma_split_join(m);
        assert(split_lines(r) == m);
        assert forall|i: int| 0 <= i < m.len() implies trim_seq(#[trigger] m[i]) == m[i] by {
            assert(trim_seq(m[i]) == m[i] && (forall|u: int|
                0 <= u < m[i].len() ==> #[trigger] m[i][u] != '\n'));
        }
        assert(trim_all(m) =~= m);
        lemma_drop_empty_id(m);
        assert(clean_lines(r) == join_lines(m));
    }
}

/// No piece of a split has a line break in it.
proof fn lemma_split_lines_no_nl(s: Seq<char>, i: int)
    requires
        0 <= i < split_lines(s).len(),
    ensures
        forall|t: int| 0 <= t < split_lines(s)[i].len() ==> #[trigger] split_lines(s)[i][t]
            != '\n',
    decreases s.len(),
{
    lemma_find_nl_props(s, 0);
    let k = find_nl(s, 0);
    if k < s.len() {
        if i == 0 {
            assert forall|t: int| 0 <= t < split_lines(s)[0].len() implies #[trigger] split_lines(
                s,
            )[0][t] != '\n' by {
                assert(split_lines(s)[0][t] == s[t]);
            }
        } else {
            assert(split_lines(s)[i] == split_lines(s.skip(k + 1))[i - 1]);
            lemma_split_lines_no_nl(s.skip(k + 1), i - 1);
        }
    } else {
        assert(split_lines(s)[0] == s);
    }
}

/// Trims one line of text, given as the span `[from, to)` of `s`: returns the
/// trimmed bounds.
fn trim_bounds(s: &str, n: usize, from: usize, to: usize) -> (r: (usize, usize))
    requires
        n == s@.len(),
        from <= to <= n,
    ensures
        from <= r.0 <= r.1 <= to,
        r.0 < r.1 ==> trim_seq(s@.subrange(from as int, to as int)) == s@.subrange(
            r.0 as int,
            r.1 as int,
        ),
        r.0 == r.1 ==> trim_seq(s@.subrange(from as int, to as int)) == Seq::<char>::empty(),
{
    let ghost line = s@.subrange(from as int, to as int);
    let mut a = from;
    while a < to && char_is_space(s.get_char(a))
        invariant
            n == s@.len(),
            from <= a <= to <= n,
            forall|k: int| from <= k < a ==> is_space(#[trigger] s@[k]),
        decreases to - a,
    {
        a += 1;
    }
    let mut b = to;
    while b > a && char_is_space(s.get_char(b - 1))
        invariant
            n == s@.len(),
            from <= a <= b <= to <= n,
            forall|k: int| b <= k < to ==> is_space(#[trigger] s@[k]),
        decreases b,
    {
        b -= 1;
    }
    proof {
        if a == b {
            assert forall|k: int| 0 <= k < line.len() implies is_space(#[trigger] line[k]) by {
                assert(line[k] == s@[from + k]);
            }
            lemma_first_non_space_at(line, 0, line.len() as int);
            lemma_last_non_space_end_at(line, line.len() as int, 0);
        } else {
            assert(!is_space(s@[a as int]));
            assert(!is_space(s@[b - 1]));
            assert forall|k: int| 0 <= k < a - from implies is_space(#[trigger] line[k]) by {
                assert(line[k] == s@[from + k]);
            }
            assert(line[a - from] == s@[a as int]);
            lemma_first_non_space_at(line, 0, a - from);
            assert forall|k: int| b - from <= k < line.len() implies is_space(
                #[trigger] line[k],
            ) by {
                assert(line[k] == s@[from + k]);
            }
            assert(line[b - from - 1] == s@[b - 1]);
            lemma_last_non_space_end_at(line, line.len() as int, b - from);
            assert(line.subrange(a - from, b - from) =~= s@.subrange(a as int, b as int));
        }
    }
    (a, b)
}

/// Line-level tidying of a text: every line trimmed, empty lines dropped, the
/// survivors rejoined with single line breaks.
pub(crate) fn join_trimmed_lines(s: &str) -> (r: String)
    ensures
        r@ == clean_lines(s@),
{
    let n = s.unicode_len();
    let mut out = String::new();
    let mut start: usize = 0;
    let ghost mut done: Seq<Seq<char>> = Seq::empty();
    proof {
        assert(s@.skip(0) =~= s@);
        assert(Seq::<Seq<char>>::empty() + split_lines(s@) =~= split_lines(s@));
        assert(drop_empty(trim_all(done)) =~= Seq::<Seq<char>>::empty());
        assert(clean_of_lines(done) =~= Seq::<char>::empty());
    }
    loop
        invariant
            n == s@.len(),
            start <= n,
            split_lines(s@) == done + split_lines(s@.skip(start as int)),
            out@ == clean_of_lines(done),
        decreases n - start,
    {
        let mut k = start;
        while k < n && s.get_char(k) != '\n'
            invariant
                n == s@.len(),
                start <= k <= n,
                forall|j: int| start <= j < k ==> #[trigger] s@[j] != '\n',
            decreases n - k,
        {
            k += 1;
        }
        let ghost suffix = s@.skip(start as int);
        let ghost line = s@.subrange(start as int, k as int);
        proof {
            assert forall|j: int| 0 <= j < k - start implies #[trigger] suffix[j] != '\n' by {
                assert(suffix[j] == s@[start + j]);
            }
            if k < n {
                assert(suffix[k - start] == s@[k as int]);
            }
            lemma_find_nl_at(suffix, 0, k - start);
            assert(suffix.take(k - start) =~= line);
        }
        let (a, b) = trim_bounds(s, n, start, k);
        let ghost old_done = done;
        proof {
            done = done.push(line);
            lemma_trim_all_push(old_done, line);
            lemma_drop_empty_push(trim_all(old_done), trim_seq(line));
            lemma_drop_empty_nonempty(trim_all(old_done));
        }
        if a < b {
            if !out.as_str().is_empty() {
                proof {
                    lemma_join_lines_len(drop_empty(trim_all(old_done)));
                    lemma_join_lines_push(drop_empty(trim_all(old_done)), trim_seq(line));
                }
                out.append("\n");
                let piece = s.substring_char(a, b);
                out.append(piece);
                proof {
                    reveal_strlit("\n");
                    assert("\n"@ =~= seq!['\n']);
                    assert(out@ == clean_of_lines(done));
                }
            } else {
                proof {
                    lemma_join_lines_len(drop_empty(trim_all(old_done)));
                    lemma_join_lines_push(drop_empty(trim_all(old_done)), trim_seq(line));
                }
                let piece = s.substring_char(a, b);
                out.append(piece);
                proof {
                    assert(out@ == clean_of_lines(done));
                }
            }
        } else {
            proof {
                assert(drop_empty(trim_all(done)) == drop_empty(trim_all(old_done)));
                assert(out@ == clean_of_lines(done));
            }
        }
        if k == n {
            proof {
                assert(split_lines(suffix) =~= seq![line]);
                assert(done =~= old_done.push(line));
                assert(old_done + seq![line] =~= done);
                assert(split_lines(s@) == done);
            }
            return out;
        }
        proof {
            assert(suffix[k - start] == s@[k as int]);
            assert(split_lines(suffix) == seq![line] + split_lines(suffix.skip(k - start + 1)));
            assert(suffix.skip(k - start + 1) =~= s@.skip(k as int + 1));
            assert(old_done + (seq![line] + split_lines(s@.skip(k as int + 1))) =~= done
                + split_lines(s@.skip(k as int + 1)));
        }
        start = k + 1;
    }
}

/// What the document-level pre-processing makes of raw file text before it
/// is parsed: Windows line breaks normalized within the trimmed text.
pub open spec fn replace_crlf(s: Seq<char>) -> Seq<char>
    decreases s.len(),
{
    if s.len() >= 2 && s[0] == '\r' && s[1] == '\n' {
        seq!['\n'] + replace_crlf(s.skip(2))
    } else if s.len() >= 1 {
        seq![s[0]] + replace_crlf(s.skip(1))
    } else {
        Seq::empty()
    }
}

/// The pre-processed form of raw input: trimmed at both ends, line breaks
/// normalized, and ending with exactly one blank line.
pub open spec fn normalized(s: Seq<char>) -> Seq<char> {
    replace_crlf(trim_seq(s)) + seq!['\n', '\n']
}

/// Pre-processes raw file text for the parser: trims the whole text,
/// normalizes Windows line breaks, and appends exactly one blank line.
pub fn normalize_input(s: &str) -> (r: String)
    ensures
        r@ == normalized(s@),
{
    let n = s.unicode_len();
    let (a, b) = trim_bounds(s, n, 0, n);
    let ghost t = s@.subrange(a as int, b as int);
    proof {
        assert(s@.subrange(0, n as int) =~= s@);
        if a == b {
            assert(t =~= Seq::<char>::empty());
        }
        assert(trim_seq(s@) == t);
        assert(t.skip(0) =~= t);
        assert(replace_crlf(Seq::<char>::empty()) == Seq::<char>::empty());
    }
    let mut out = String::new();
    let mut i = a;
    while i < b
        invariant
            n == s@.len(),
            a <= i <= b <= n,
            t == s@.subrange(a as int, b as int),
            replace_crlf(t) == out@ + replace_crlf(t.skip(i - a)),
        decreases b - i,
    {
        let ghost suf = t.skip(i - a);
        proof {
            assert(suf[0] == s@[i as int]);
            if i + 1 < b {
                assert(suf[1] == s@[i as int + 1]);
            }
        }
        if s.get_char(i) == '\r' && i + 1 < b && s.get_char(i + 1) == '\n' {
            out.append("\n");
            proof {
                reveal_strlit("\n");
                assert("\n"@ =~= seq!['\n']);
                assert(replace_crlf(suf) == seq!['\n'] + replace_crlf(suf.skip(2)));
                assert(suf.skip(2) =~= t.skip(i - a + 2));
                assert((out@ + replace_crlf(t.skip(i - a + 2))) =~= replace_crlf(t));
            }
            i += 2;
        } else {
            let piece = s.substring_char(i, i + 1);
            out.append(piece);
            proof {
                assert(piece@ =~= seq![suf[0]]);
                assert(replace_crlf(suf) == seq![suf[0]] + replace_crlf(suf.skip(1)));
                assert(suf.skip(1) =~= t.skip(i - a + 1));
                assert((out@ + replace_crlf(t.skip(i - a + 1))) =~= replace_crlf(t));
            }
            i += 1;
        }
    }
    proof {
        assert(t.skip(b - a) =~= Seq::<char>::empty());
        assert(out@ =~= replace_crlf(t));
    }
    out.append("\n\n");
    proof {
        reveal_strlit("\n\n");
        assert("\n\n"@ =~= seq!['\n', '\n']);
    }
    out
}

/// `n` written in decimal.
pub(crate) fn u64_to_text(n: u64) -> (r: String)
    ensures
        r@ == dec_digits(n as nat),
    decreases n,
{
    if n < 10 {
        digit_str(n)
    } else {
        let mut r = u64_to_text(n / 10);
        let t = digit_str(n % 10);
        r.append(t.as_str());
        proof {
            assert(r@ =~= dec_digits(n as nat));
        }
        r
    }
}

} // verus!
