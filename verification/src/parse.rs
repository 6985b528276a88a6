//! The block grammar of the subtitle format and its parser: an ordinal line,
//! a time-range line, and a text body ended by a blank line, repeated until
//! the input is exhausted. A failure reports the position of the offending
//! input; nothing is recovered.

use vstd::prelude::*;
use vstd::string::StrSliceExecFns;

use crate::srt::{
    time_ms, arrow_sep, blocks_view, pad2, pad3, render_block, render_blocks, render_doc,
    time_text, BlockView, ParseError, SubBlock, Subtitle, TimePoint, MS_PER_HOUR, MS_PER_MINUTE,
    MS_PER_SECOND,
};
use crate::text::{
    all_digits, char_is_digit, char_is_space, dec_digits, digit_char, digit_val, is_digit, is_space,
    first_non_space, take_digits, val_of_digits, lemma_dec_digits_form, lemma_digit_char_val,
    lemma_take_digits_exact, lemma_val_of_dec_digits,
    lemma_val_of_digits_prefix, lemma_first_non_space_at,
};
use vstd::arithmetic::div_mod::{lemma_div_denominator, lemma_fundamental_div_mod};

verus! {

/// A decimal number token: its value and the rest of the input, or the failing
/// input when no digit leads it or its value does not fit.
pub open spec fn sp_number(s: Seq<char>) -> Result<(u64, Seq<char>), Seq<char>> {
    let (d, r) = take_digits(s);
    if d.len() == 0 {
        Err(s)
    } else if val_of_digits(d) > u64::MAX {
        Err(s)
    } else {
        Ok((val_of_digits(d) as u64, r))
    }
}

/// One expected character.
pub open spec fn sp_char(s: Seq<char>, c: char) -> Result<Seq<char>, Seq<char>> {
    if s.len() > 0 && s[0] == c {
        Ok(s.drop_first())
    } else {
        Err(s)
    }
}

/// An expected literal run of characters.
pub open spec fn sp_tag(s: Seq<char>, t: Seq<char>) -> Result<Seq<char>, Seq<char>> {
    if s.len() >= t.len() && s.take(t.len() as int) == t {
        Ok(s.skip(t.len() as int))
    } else {
        Err(s)
    }
}

/// A time of the form `H+:M+:S+,MS+`, folded into flat milliseconds; the fold
/// must fit the time representation, else the whole time is the failing input.
pub open spec fn sp_time(s: Seq<char>) -> Result<(u64, Seq<char>), Seq<char>> {
    match sp_number(s) {
        Err(e) => Err(e),
        Ok((h, s1)) => match sp_char(s1, ':') {
            Err(e) => Err(e),
            Ok(s2) => match sp_number(s2) {
                Err(e) => Err(e),
                Ok((m, s3)) => match sp_char(s3, ':') {
                    Err(e) => Err(e),
                    Ok(s4) => match sp_number(s4) {
                        Err(e) => Err(e),
                        Ok((sec, s5)) => match sp_char(s5, ',') {
                            Err(e) => Err(e),
                            Ok(s6) => match sp_number(s6) {
                                Err(e) => Err(e),
                                Ok((ms, s7)) => {
                                    if time_ms(h as nat, m as nat, sec as nat, ms as nat)
                                        > u64::MAX {
                                        Err(s)
                                    } else {
                                        Ok(
                                            (
                                                time_ms(
                                                    h as nat,
                                                    m as nat,
                                                    sec as nat,
                                                    ms as nat,
                                                ) as u64,
                                                s7,
                                            ),
                                        )
                                    }
                                },
                            },
                        },
                    },
                },
            },
        },
    }
}

/// The shortest run of characters up to the first blank line, and the input
/// after that blank line; `None` when no blank line follows.
pub open spec fn take_to_blank(s: Seq<char>) -> Option<(Seq<char>, Seq<char>)>
    decreases s.len(),
{
    if s.len() < 2 {
        None
    } else if s[0] == '\n' && s[1] == '\n' {
        Some((Seq::empty(), s.skip(2)))
    } else {
        match take_to_blank(s.drop_first()) {
            None => None,
            Some((b, r)) => Some((seq![s[0]] + b, r)),
        }
    }
}

/// One block unit: an ordinal line, a time-range line, and a text body ended
/// by a blank line. The ordinal's value is read and discarded.
pub open spec fn sp_block(s: Seq<char>) -> Result<(BlockView, Seq<char>), Seq<char>> {
    match sp_number(s) {
        Err(e) => Err(e),
        Ok((_ord, s1)) => match sp_char(s1, '\n') {
            Err(e) => Err(e),
            Ok(s2) => match sp_time(s2) {
                Err(e) => Err(e),
                Ok((start, s3)) => match sp_tag(s3, arrow_sep()) {
                    Err(e) => Err(e),
                    Ok(s4) => match sp_time(s4) {
                        Err(e) => Err(e),
                        Ok((end, s5)) => match sp_char(s5, '\n') {
                            Err(e) => Err(e),
                            Ok(s6) => match take_to_blank(s6) {
                                None => Err(s6),
                                Some((body, rest)) => Ok(
                                    (
                                        BlockView {
                                            start_ms: start as nat,
                                            end_ms: end as nat,
                                            text: body,
                                        },
                                        rest,
                                    ),
                                ),
                            },
                        },
                    },
                },
            },
        },
    }
}

/// A whole document: block units repeated until the input is exactly empty.
/// Every block unit consumes at least one character, so the guard on the
/// remaining length never fires; it only bounds the recursion.
pub open spec fn sp_subtitle(s: Seq<char>) -> Result<Seq<BlockView>, Seq<char>>
    decreases s.len(),
{
    if s.len() == 0 {
        Ok(Seq::empty())
    } else {
        match sp_block(s) {
            Err(e) => Err(e),
            Ok((b, rest)) => {
                if rest.len() >= s.len() {
                    Err(s)
                } else {
                    match sp_subtitle(rest) {
                        Err(e) => Err(e),
                        Ok(bs) => Ok(seq![b] + bs),
                    }
                }
            },
        }
    }
}

/// A decimal number token at position `i`.
fn number(s: &str, n: usize, i: usize) -> (r: Result<(u64, usize), usize>)
    requires
        n == s@.len(),
        i <= n,
    ensures
        match r {
            Ok((v, j)) => i < j <= n && sp_number(s@.skip(i as int)) == Ok::<
                (u64, Seq<char>),
                Seq<char>,
            >((v, s@.skip(j as int))),
            Err(p) => p == i && sp_number(s@.skip(i as int)) == Err::<
                (u64, Seq<char>),
                Seq<char>,
            >(s@.skip(i as int)),
        },
{
    let mut j = i;
    while j < n && char_is_digit(s.get_char(j))
        invariant
            n == s@.len(),
            i <= j <= n,
            forall|k: int| i <= k < j ==> is_digit(#[trigger] s@[k]),
        decreases n - j,
    {
        j += 1;
    }
    let ghost d = s@.subrange(i as int, j as int);
    proof {
        assert(all_digits(d));
        assert(s@.skip(j as int).len() > 0 ==> !is_digit(s@.skip(j as int)[0]));
        lemma_take_digits_exact(d, s@.skip(j as int));
        assert(d + s@.skip(j as int) =~= s@.skip(i as int));
    }
    if j == i {
        return Err(i);
    }
    let mut v: u64 = 0;
    let mut k = i;
    while k < j
        invariant
            n == s@.len(),
            i <= k <= j <= n,
            d == s@.subrange(i as int, j as int),
            all_digits(d),
            take_digits(s@.skip(i as int)) == (d, s@.skip(j as int)),
            forall|t: int| i <= t < j ==> is_digit(#[trigger] s@[t]),
            v as nat == val_of_digits(d.take(k - i)),
        decreases j - k,
    {
        let c = s.get_char(k);
        assert(is_digit(c));
        let dv = (c as u32 - 48) as u64;
        if v > (u64::MAX - dv) / 10 {
            proof {
                assert(d.take(k - i + 1).drop_last() =~= d.take(k - i));
                assert(d.take(k - i + 1).last() == d[k - i]);
                assert(digit_val(c) == dv as nat);
                assert(val_of_digits(d.take(k - i + 1)) == (v as nat) * 10 + dv as nat);
                assert((v as nat) * 10 + dv as nat > u64::MAX) by (nonlinear_arith)
                    requires
                        v > (u64::MAX - dv) / 10,
                        dv <= 9,
                ;
                lemma_val_of_digits_prefix(d, k - i + 1);
            }
            return Err(i);
        }
        proof {
            assert((v as nat) * 10 + dv as nat <= u64::MAX) by (nonlinear_arith)
                requires
                    v <= (u64::MAX - dv) / 10,
                    dv <= 9,
            ;
            assert(d.take(k - i + 1).drop_last() =~= d.take(k - i));
            assert(d.take(k - i + 1).last() == d[k - i]);
            assert(digit_val(c) == dv as nat);
        }
        v = v * 10 + dv;
        k += 1;
    }
    proof {
        assert(d.take(j - i) =~= d);
    }
    Ok((v, j))
}

/// One expected character at position `i`.
fn expect_char(s: &str, n: usize, i: usize, c: char) -> (r: Result<usize, usize>)
    requires
        n == s@.len(),
        i <= n,
    ensures
        match r {
            Ok(j) => j == i + 1 && j <= n && sp_char(s@.skip(i as int), c) == Ok::<
                Seq<char>,
                Seq<char>,
            >(s@.skip(j as int)),
            Err(p) => p == i && sp_char(s@.skip(i as int), c) == Err::<Seq<char>, Seq<char>>(
                s@.skip(i as int),
            ),
        },
{
    if i < n && s.get_char(i) == c {
        proof {
            assert(s@.skip(i as int).drop_first() =~= s@.skip(i as int + 1));
        }
        Ok(i + 1)
    } else {
        Err(i)
    }
}

/// The literal ` --> ` separating the two times of a time-range line.
fn expect_arrow(s: &str, n: usize, i: usize) -> (r: Result<usize, usize>)
    requires
        n == s@.len(),
        i <= n,
    ensures
        match r {
            Ok(j) => i < j <= n && sp_tag(s@.skip(i as int), arrow_sep()) == Ok::<
                Seq<char>,
                Seq<char>,
            >(s@.skip(j as int)),
            Err(p) => p == i && sp_tag(s@.skip(i as int), arrow_sep()) == Err::<
                Seq<char>,
                Seq<char>,
            >(s@.skip(i as int)),
        },
{
    if n - i >= 5 && s.get_char(i) == ' ' && s.get_char(i + 1) == '-' && s.get_char(i + 2) == '-'
        && s.get_char(i + 3) == '>' && s.get_char(i + 4) == ' ' {
        proof {
            assert(s@.skip(i as int).take(5) =~= arrow_sep());
            assert(s@.skip(i as int).skip(5) =~= s@.skip(i as int + 5));
        }
        Ok(i + 5)
    } else {
        proof {
            let t = s@.skip(i as int);
            if t.len() >= 5 && t.take(5) == arrow_sep() {
                assert(t.take(5)[0] == ' ');
                assert(t.take(5)[1] == '-');
                assert(t.take(5)[2] == '-');
                assert(t.take(5)[3] == '>');
                assert(t.take(5)[4] == ' ');
                assert(false);
            }
        }
        Err(i)
    }
}

/// A scaling of `x` by the positive factor `f`, refused when the product does
/// not fit.
fn scale(f: u64, x: u64) -> (r: Option<u64>)
    requires
        f >= 1,
    ensures
        match r {
            Some(v) => v as nat == f as nat * x as nat,
            None => f as nat * x as nat > u64::MAX,
        },
{
    let q = u64::MAX / f;
    proof {
        vstd::arithmetic::div_mod::lemma_fundamental_div_mod(u64::MAX as int, f as int);
    }
    if x <= q {
        proof {
            assert(f as nat * x as nat <= f as nat * q as nat) by (nonlinear_arith)
                requires
                    x <= q,
                    f >= 0,
            ;
        }
        Some(f * x)
    } else {
        proof {
            assert(f as nat * x as nat >= f as nat * (q as nat + 1)) by (nonlinear_arith)
                requires
                    x >= q + 1,
                    f >= 0,
            ;
            assert(f as nat * (q as nat + 1) == f as nat * q as nat + f as nat)
                by (nonlinear_arith);
        }
        None
    }
}

/// A time-range time at position `i`.
fn time_point(s: &str, n: usize, i: usize) -> (r: Result<(u64, usize), usize>)
    requires
        n == s@.len(),
        i <= n,
    ensures
        match r {
            Ok((v, j)) => i < j <= n && sp_time(s@.skip(i as int)) == Ok::<
                (u64, Seq<char>),
                Seq<char>,
            >((v, s@.skip(j as int))),
            Err(p) => i <= p <= n && sp_time(s@.skip(i as int)) == Err::<
                (u64, Seq<char>),
                Seq<char>,
            >(s@.skip(p as int)),
        },
{
    let (h, i1) = match number(s, n, i) {
        Ok(x) => x,
        Err(p) => {
            return Err(p);
        },
    };
    let i2 = match expect_char(s, n, i1, ':') {
        Ok(x) => x,
        Err(p) => {
            return Err(p);
        },
    };
    let (m, i3) = match number(s, n, i2) {
        Ok(x) => x,
        Err(p) => {
            return Err(p);
        },
    };
    let i4 = match expect_char(s, n, i3, ':') {
        Ok(x) => x,
        Err(p) => {
            return Err(p);
        },
    };
    let (sec, i5) = match number(s, n, i4) {
        Ok(x) => x,
        Err(p) => {
            return Err(p);
        },
    };
    let i6 = match expect_char(s, n, i5, ',') {
        Ok(x) => x,
        Err(p) => {
            return Err(p);
        },
    };
    let (ms, i7) = match number(s, n, i6) {
        Ok(x) => x,
        Err(p) => {
            return Err(p);
        },
    };
    let hp = match scale(MS_PER_HOUR, h) {
        Some(v) => v,
        None => {
            return Err(i);
        },
    };
    let mp = match scale(MS_PER_MINUTE, m) {
        Some(v) => v,
        None => {
            return Err(i);
        },
    };
    let sp = match scale(MS_PER_SECOND, sec) {
        Some(v) => v,
        None => {
            return Err(i);
        },
    };
    if ms > u64::MAX - sp {
        return Err(i);
    }
    let a = ms + sp;
    if a > u64::MAX - mp {
        return Err(i);
    }
    let b = a + mp;
    if b > u64::MAX - hp {
        return Err(i);
    }
    Ok((b + hp, i7))
}

/// A text body at position `i`: everything up to the first blank line.
fn text(s: &str, n: usize, i: usize) -> (r: Result<(String, usize), usize>)
    requires
        n == s@.len(),
        i <= n,
    ensures
        match r {
            Ok((body, j)) => i < j <= n && take_to_blank(s@.skip(i as int)) == Some::<
                (Seq<char>, Seq<char>),
            >((body@, s@.skip(j as int))),
            Err(p) => p == i && take_to_blank(s@.skip(i as int)) is None,
        },
{
    let mut j = i;
    loop
        invariant
            n == s@.len(),
            i <= j <= n,
            forall|k: int| i <= k < j ==> !(#[trigger] s@[k] == '\n' && s@[k + 1] == '\n'),
        decreases n - j,
    {
        if n - j < 2 {
            proof {
                lemma_take_to_blank_none(s@.skip(i as int));
            }
            return Err(i);
        }
        if s.get_char(j) == '\n' && s.get_char(j + 1) == '\n' {
            let body = s.substring_char(i, j).to_owned();
            proof {
                lemma_take_to_blank_found(s@.skip(i as int), j - i);
                assert(s@.skip(i as int).take(j - i) =~= s@.subrange(i as int, j as int));
                assert(s@.skip(i as int).skip(j - i + 2) =~= s@.skip(j as int + 2));
            }
            return Ok((body, j + 2));
        }
        j += 1;
    }
}

/// A scan that found a blank line at `p`, none earlier, splits the input there.
proof fn lemma_take_to_blank_found(t: Seq<char>, p: int)
    requires
        0 <= p,
        p + 2 <= t.len(),
        t[p] == '\n',
        t[p + 1] == '\n',
        forall|k: int| 0 <= k < p ==> !(#[trigger] t[k] == '\n' && t[k + 1] == '\n'),
    ensures
        take_to_blank(t) == Some::<(Seq<char>, Seq<char>)>((t.take(p), t.skip(p + 2))),
    decreases p,
{
    if p == 0 {
        assert(t.take(0) =~= Seq::<char>::empty());
    } else {
        assert(!(t[0] == '\n' && t[1] == '\n'));
        let u = t.drop_first();
        assert forall|k: int| 0 <= k < p - 1 implies !(#[trigger] u[k] == '\n' && u[k + 1]
            == '\n') by {
            assert(u[k] == t[k + 1]);
            assert(u[k + 1] == t[k + 2]);
        }
        lemma_take_to_blank_found(u, p - 1);
        assert(seq![t[0]] + u.take(p - 1) =~= t.take(p));
        assert(u.skip(p + 1) =~= t.skip(p + 2));
    }
}

/// A scan that found no blank line anywhere finds none.
proof fn lemma_take_to_blank_none(t: Seq<char>)
    requires
        forall|k: int| 0 <= k < t.len() - 1 ==> !(#[trigger] t[k] == '\n' && t[k + 1] == '\n'),
    ensures
        take_to_blank(t) is None,
    decreases t.len(),
{
    if t.len() >= 2 {
        let u = t.drop_first();
        assert forall|k: int| 0 <= k < u.len() - 1 implies !(#[trigger] u[k] == '\n' && u[k + 1]
            == '\n') by {
            assert(u[k] == t[k + 1]);
            assert(u[k + 1] == t[k + 2]);
        }
        lemma_take_to_blank_none(u);
    }
}

/// One block unit at position `i`.
fn sub_block(s: &str, n: usize, i: usize) -> (r: Result<(SubBlock, usize), usize>)
    requires
        n == s@.len(),
        i <= n,
    ensures
        match r {
            Ok((b, j)) => i < j <= n && sp_block(s@.skip(i as int)) == Ok::<
                (BlockView, Seq<char>),
                Seq<char>,
            >((b@, s@.skip(j as int))),
            Err(p) => i <= p <= n && sp_block(s@.skip(i as int)) == Err::<
                (BlockView, Seq<char>),
                Seq<char>,
            >(s@.skip(p as int)),
        },
{
    let (_ord, i1) = match number(s, n, i) {
        Ok(x) => x,
        Err(p) => {
            return Err(p);
        },
    };
    let i2 = match expect_char(s, n, i1, '\n') {
        Ok(x) => x,
        Err(p) => {
            return Err(p);
        },
    };
    let (st, i3) = match time_point(s, n, i2) {
        Ok(x) => x,
        Err(p) => {
            return Err(p);
        },
    };
    let i4 = match expect_arrow(s, n, i3) {
        Ok(x) => x,
        Err(p) => {
            return Err(p);
        },
    };
    let (en, i5) = match time_point(s, n, i4) {
        Ok(x) => x,
        Err(p) => {
            return Err(p);
        },
    };
    let i6 = match expect_char(s, n, i5, '\n') {
        Ok(x) => x,
        Err(p) => {
            return Err(p);
        },
    };
    let (body, j) = match text(s, n, i6) {
        Ok(x) => x,
        Err(p) => {
            return Err(p);
        },
    };
    Ok((SubBlock { start: TimePoint::from_total(st), end: TimePoint::from_total(en), text: body }, j))
}

/// Block units from position `i` until the input is exhausted.
fn blocks_from(s: &str, n: usize, i: usize) -> (r: Result<Vec<SubBlock>, usize>)
    requires
        n == s@.len(),
        i <= n,
    ensures
        match r {
            Ok(blocks) => sp_subtitle(s@.skip(i as int)) == Ok::<Seq<BlockView>, Seq<char>>(
                blocks_view(blocks@),
            ),
            Err(p) => i <= p <= n && sp_subtitle(s@.skip(i as int)) == Err::<
                Seq<BlockView>,
                Seq<char>,
            >(s@.skip(p as int)),
        },
    decreases n - i,
{
    if i == n {
        let blocks: Vec<SubBlock> = Vec::new();
        proof {
            assert(s@.skip(i as int) =~= Seq::<char>::empty());
            assert(blocks_view(blocks@) =~= Seq::<BlockView>::empty());
        }
        return Ok(blocks);
    }
    match sub_block(s, n, i) {
        Err(p) => Err(p),
        Ok((b, j)) => match blocks_from(s, n, j) {
            Err(p) => Err(p),
            Ok(mut rest) => {
                let ghost old_rest = rest@;
                rest.insert(0, b);
                proof {
                    assert(blocks_view(rest@) =~= seq![b@] + blocks_view(old_rest));
                }
                Ok(rest)
            },
        },
    }
}

/// Parses a whole document: block units until the very end of the input.
pub fn subtitle(s: &str) -> (r: Result<Subtitle, usize>)
    ensures
        match r {
            Ok(sub) => sp_subtitle(s@) == Ok::<Seq<BlockView>, Seq<char>>(sub@),
            Err(p) => p <= s@.len() && sp_subtitle(s@) == Err::<Seq<BlockView>, Seq<char>>(
                s@.skip(p as int),
            ),
        },
{
    let n = s.unicode_len();
    proof {
        assert(s@.skip(0) =~= s@);
    }
    match blocks_from(s, n, 0) {
        Ok(blocks) => Ok(Subtitle { blocks }),
        Err(p) => Err(p),
    }
}

/// Position after any run of byte-order marks starting at `i`.
pub open spec fn skip_bom(s: Seq<char>, i: int) -> int
    decreases s.len() - i,
{
    if i < 0 || i >= s.len() {
        s.len() as int
    } else if s[i] == '\u{feff}' {
        skip_bom(s, i + 1)
    } else {
        i
    }
}

/// Where the document proper starts: after leading whitespace, then after any
/// leading byte-order marks.
pub open spec fn head_start(s: Seq<char>) -> int {
    skip_bom(s, first_non_space(s, 0))
}

/// The document proper: the input with its head skipped.
pub open spec fn doc_tail(s: Seq<char>) -> Seq<char> {
    s.skip(head_start(s))
}

/// The diagnostic excerpt for a failure: the first characters of the
/// unconsumed input, at most twenty of them.
pub open spec fn excerpt_of(rem: Seq<char>) -> Seq<char> {
    if rem.len() <= 20 {
        rem
    } else {
        rem.take(20)
    }
}

/// A scan that stops at the first non-byte-order-mark finds `skip_bom`.
proof fn lemma_skip_bom_at(s: Seq<char>, i: int, a: int)
    requires
        0 <= i <= a <= s.len(),
        forall|k: int| i <= k < a ==> #[trigger] s[k] == '\u{feff}',
        a == s.len() || s[a] != '\u{feff}',
    ensures
        skip_bom(s, i) == a,
    decreases a - i,
{
    if i < a {
        lemma_skip_bom_at(s, i + 1, a);
    }
}

/// A block whose serialized form parses back to itself: the text holds no
/// blank line and does not end with a line break, and both times are below
/// sixty hours, where the hour wrap of the serialized form loses nothing.
pub open spec fn renderable_block(b: BlockView) -> bool {
    &&& b.start_ms < 216000000
    &&& b.end_ms < 216000000
    &&& forall|k: int| 0 <= k < b.text.len() - 1 ==> !(#[trigger] b.text[k] == '\n' && b.text[k
        + 1] == '\n')
    &&& b.text.len() > 0 ==> b.text.last() != '\n'
}

proof fn lemma_sp_number_exact(v: u64, t: Seq<char>)
    requires
        t.len() == 0 || !is_digit(t[0]),
    ensures
        sp_number(dec_digits(v as nat) + t) == Ok::<(u64, Seq<char>), Seq<char>>((v, t)),
{
    lemma_dec_digits_form(v as nat);
    lemma_take_digits_exact(dec_digits(v as nat), t);
    lemma_val_of_dec_digits(v as nat);
}

proof fn lemma_sp_char_exact(c: char, t: Seq<char>)
    ensures
        sp_char(seq![c] + t, c) == Ok::<Seq<char>, Seq<char>>(t),
{
    assert((seq![c] + t)[0] == c);
    assert((seq![c] + t).drop_first() =~= t);
}

proof fn lemma_pad2_value(x: nat)
    requires
        x < 100,
    ensures
        all_digits(pad2(x)),
        val_of_digits(pad2(x)) == x,
{
    lemma_digit_char_val(x / 10 % 10);
    lemma_digit_char_val(x % 10);
    let p = pad2(x);
    assert(p.drop_last() =~= seq![p[0]]);
    assert(seq![p[0]].drop_last() =~= Seq::<char>::empty());
    assert(val_of_digits(Seq::<char>::empty()) == 0);
    assert(val_of_digits(seq![p[0]]) == digit_val(p[0]));
    assert(val_of_digits(p) == val_of_digits(seq![p[0]]) * 10 + digit_val(p[1]));
    assert(val_of_digits(p) == (x / 10 % 10) * 10 + x % 10);
    assert(x / 10 % 10 == x / 10);
    assert((x / 10) * 10 + x % 10 == x) by (nonlinear_arith);
    assert forall|i: int| 0 <= i < p.len() implies is_digit(#[trigger] p[i]) by {
        lemma_digit_char_val(x / 10 % 10);
        lemma_digit_char_val(x % 10);
    }
}

proof fn lemma_pad3_value(x: nat)
    requires
        x < 1000,
    ensures
        all_digits(pad3(x)),
        val_of_digits(pad3(x)) == x,
{
    lemma_digit_char_val(x / 100 % 10);
    lemma_digit_char_val(x / 10 % 10);
    lemma_digit_char_val(x % 10);
    let p = pad3(x);
    assert(p.drop_last() =~= seq![p[0], p[1]]);
    assert(seq![p[0], p[1]].drop_last() =~= seq![p[0]]);
    assert(seq![p[0]].drop_last() =~= Seq::<char>::empty());
    assert(val_of_digits(Seq::<char>::empty()) == 0);
    assert(val_of_digits(seq![p[0]]) == digit_val(p[0]));
    assert(val_of_digits(seq![p[0], p[1]]) == val_of_digits(seq![p[0]]) * 10 + digit_val(p[1]));
    assert(val_of_digits(p) == val_of_digits(seq![p[0], p[1]]) * 10 + digit_val(p[2]));
    assert(val_of_digits(p) == ((x / 100 % 10) * 10 + x / 10 % 10) * 10 + x % 10);
    assert(x / 100 % 10 == x / 100);
    assert(((x / 100) * 10 + x / 10 % 10) * 10 + x % 10 == x) by (nonlinear_arith);
    assert forall|i: int| 0 <= i < p.len() implies is_digit(#[trigger] p[i]) by {
        lemma_digit_char_val(x / 100 % 10);
        lemma_digit_char_val(x / 10 % 10);
        lemma_digit_char_val(x % 10);
    }
}

proof fn lemma_sp_number_pad2(x: nat, t: Seq<char>)
    requires
        x < 100,
        t.len() == 0 || !is_digit(t[0]),
    ensures
        sp_number(pad2(x) + t) == Ok::<(u64, Seq<char>), Seq<char>>((x as u64, t)),
{
    lemma_pad2_value(x);
    lemma_take_digits_exact(pad2(x), t);
}

proof fn lemma_sp_number_pad3(x: nat, t: Seq<char>)
    requires
        x < 1000,
        t.len() == 0 || !is_digit(t[0]),
    ensures
        sp_number(pad3(x) + t) == Ok::<(u64, Seq<char>), Seq<char>>((x as u64, t)),
{
    lemma_pad3_value(x);
    lemma_take_digits_exact(pad3(x), t);
}

/// The radix decomposition used by the serialized time form reassembles to
/// the original milliseconds for times below sixty hours.
proof fn lemma_time_decompose(ms: nat)
    requires
        ms < 216000000,
    ensures
        ms / 3600000 % 60 == ms / 3600000,
        ms / 3600000 < 60,
        time_ms(ms / 3600000 % 60, ms / 60000 % 60, ms / 1000 % 60, ms % 1000) == ms,
{
    lemma_fundamental_div_mod(ms as int, 1000);
    lemma_fundamental_div_mod((ms as int) / 1000, 60);
    lemma_div_denominator(ms as int, 1000, 60);
    lemma_fundamental_div_mod((ms as int) / 60000, 60);
    lemma_div_denominator(ms as int, 60000, 60);
    lemma_fundamental_div_mod((ms as int) / 3600000, 60);
}

proof fn lemma_sp_time_exact(ms: nat, t: Seq<char>)
    requires
        ms < 216000000,
        t.len() == 0 || !is_digit(t[0]),
    ensures
        sp_time(time_text(ms) + t) == Ok::<(u64, Seq<char>), Seq<char>>((ms as u64, t)),
{
    let h = ms / 3600000 % 60;
    let m = ms / 60000 % 60;
    let sc = ms / 1000 % 60;
    let r = ms % 1000;
    let s = time_text(ms) + t;
    let r1 = seq![':'] + pad2(m) + seq![':'] + pad2(sc) + seq![','] + pad3(r) + t;
    assert(s =~= pad2(h) + r1);
    lemma_digit_char_val(h / 10 % 10);
    assert(!is_digit(r1[0]));
    lemma_sp_number_pad2(h, r1);
    let r2 = pad2(m) + seq![':'] + pad2(sc) + seq![','] + pad3(r) + t;
    assert(r1 =~= seq![':'] + r2);
    lemma_sp_char_exact(':', r2);
    let r3 = seq![':'] + pad2(sc) + seq![','] + pad3(r) + t;
    assert(r2 =~= pad2(m) + r3);
    assert(!is_digit(r3[0]));
    lemma_sp_number_pad2(m, r3);
    let r4 = pad2(sc) + seq![','] + pad3(r) + t;
    assert(r3 =~= seq![':'] + r4);
    lemma_sp_char_exact(':', r4);
    let r5 = seq![','] + pad3(r) + t;
    assert(r4 =~= pad2(sc) + r5);
    assert(!is_digit(r5[0]));
    lemma_sp_number_pad2(sc, r5);
    let r6 = pad3(r) + t;
    assert(r5 =~= seq![','] + r6);
    lemma_sp_char_exact(',', r6);
    lemma_sp_number_pad3(r, t);
    lemma_time_decompose(ms);
    assert(time_ms(h, m, sc, r) == ms);
}

proof fn lemma_take_to_blank_render(body: Seq<char>, t: Seq<char>)
    requires
        forall|k: int| 0 <= k < body.len() - 1 ==> !(#[trigger] body[k] == '\n' && body[k + 1]
            == '\n'),
        body.len() > 0 ==> body.last() != '\n',
    ensures
        take_to_blank(body + seq!['\n', '\n'] + t) == Some::<(Seq<char>, Seq<char>)>((body, t)),
{
    let full = body + seq!['\n', '\n'] + t;
    let p = body.len() as int;
    assert(full[p] == '\n');
    assert(full[p + 1] == '\n');
    assert forall|k: int| 0 <= k < p implies !(#[trigger] full[k] == '\n' && full[k + 1]
        == '\n') by {
        if k < p - 1 {
            assert(full[k] == body[k]);
            assert(full[k + 1] == body[k + 1]);
        } else {
            assert(full[k] == body[p - 1]);
        }
    }
    lemma_take_to_blank_found(full, p);
    assert(full.take(p) =~= body);
    assert(full.skip(p + 2) =~= t);
}

#[verifier::rlimit(100)]
proof fn lemma_sp_block_render(ord: nat, b: BlockView, t: Seq<char>)
    requires
        renderable_block(b),
        1 <= ord <= u64::MAX,
    ensures
        sp_block(render_block(ord, b) + t) == Ok::<(BlockView, Seq<char>), Seq<char>>((b, t)),
{
    let d = dec_digits(ord);
    let t1 = time_text(b.start_ms);
    let t2 = time_text(b.end_ms);
    let s = render_block(ord, b) + t;
    let r1 = seq!['\n'] + t1 + arrow_sep() + t2 + seq!['\n'] + b.text + seq!['\n', '\n'] + t;
    assert(s =~= d + r1);
    assert(!is_digit(r1[0]));
    lemma_sp_number_exact(ord as u64, r1);
    let r2 = t1 + arrow_sep() + t2 + seq!['\n'] + b.text + seq!['\n', '\n'] + t;
    assert(r1 =~= seq!['\n'] + r2);
    lemma_sp_char_exact('\n', r2);
    let r3 = arrow_sep() + t2 + seq!['\n'] + b.text + seq!['\n', '\n'] + t;
    assert(r2 =~= t1 + r3);
    assert(r3[0] == ' ');
    assert(!is_digit(' '));
    lemma_sp_time_exact(b.start_ms, r3);
    let r4 = t2 + seq!['\n'] + b.text + seq!['\n', '\n'] + t;
    assert(r3 =~= arrow_sep() + r4);
    assert(r3.take(5) =~= arrow_sep());
    assert(r3.skip(5) =~= r4);
    assert(sp_tag(r3, arrow_sep()) == Ok::<Seq<char>, Seq<char>>(r4));
    let r5 = seq!['\n'] + b.text + seq!['\n', '\n'] + t;
    assert(r4 =~= t2 + r5);
    assert(!is_digit(r5[0]));
    lemma_sp_time_exact(b.end_ms, r5);
    let r6 = b.text + seq!['\n', '\n'] + t;
    assert(r5 =~= seq!['\n'] + r6);
    lemma_sp_char_exact('\n', r6);
    lemma_take_to_blank_render(b.text, t);
    assert((ord as u64) as nat == ord);
    assert((b.start_ms as u64) as nat == b.start_ms);
    assert((b.end_ms as u64) as nat == b.end_ms);
}

/// The serialized form of renderable blocks, under ordinals counting up from
/// `ord`, parses back to exactly those blocks.
proof fn lemma_sp_subtitle_render(bs: Seq<BlockView>, ord: nat)
    requires
        forall|i: int| 0 <= i < bs.len() ==> renderable_block(#[trigger] bs[i]),
        1 <= ord,
        ord + bs.len() <= u64::MAX,
    ensures
        sp_subtitle(render_blocks(bs, ord)) == Ok::<Seq<BlockView>, Seq<char>>(bs),
    decreases bs.len(),
{
    if bs.len() == 0 {
        assert(render_blocks(bs, ord) == Seq::<char>::empty());
        assert(Seq::<BlockView>::empty() =~= bs);
    } else {
        let t = render_blocks(bs.drop_first(), ord + 1);
        let s = render_blocks(bs, ord);
        assert(s == render_block(ord, bs[0]) + t);
        lemma_sp_block_render(ord, bs[0], t);
        lemma_dec_digits_form(ord);
        assert(s.len() >= t.len() + 1);
        assert forall|i: int| 0 <= i < bs.drop_first().len() implies renderable_block(
            #[trigger] bs.drop_first()[i],
        ) by {
            assert(bs.drop_first()[i] == bs[i + 1]);
        }
        lemma_sp_subtitle_render(bs.drop_first(), ord + 1);
        assert(seq![bs[0]] + bs.drop_first() =~= bs);
    }
}

/// Round trip: the serialized form of a document of renderable blocks parses
/// back, after the head strip, to exactly that document. The serialized text
/// of a nonempty document starts with an ordinal digit, so the head strip
/// removes nothing.
#[verifier::rlimit(100)]
pub proof fn lemma_render_parse_round_trip(bs: Seq<BlockView>)
    requires
        forall|i: int| 0 <= i < bs.len() ==> renderable_block(#[trigger] bs[i]),
        bs.len() < u64::MAX,
    ensures
        sp_subtitle(doc_tail(render_doc(bs))) == Ok::<Seq<BlockView>, Seq<char>>(bs),
{
    lemma_sp_subtitle_render(bs, 1);
    let s = render_doc(bs);
    if bs.len() == 0 {
        assert(s == Seq::<char>::empty());
        assert(first_non_space(s, 0) == 0);
        assert(skip_bom(s, 0) == 0);
        assert(s.skip(0) =~= s);
    } else {
        let d = dec_digits(1);
        lemma_digit_char_val(1);
        lemma_dec_digits_form(1);
        assert(d == seq![digit_char(1)]);
        assert(s == render_block(1, bs[0]) + render_blocks(bs.drop_first(), 2));
        assert(render_block(1, bs[0]).len() > 0);
        assert(s[0] == render_block(1, bs[0])[0]);
        assert(render_block(1, bs[0])[0] == d[0]);
        assert(d[0] == '1');
        assert(!is_space('1'));
        assert('1' != '\u{feff}');
        assert(first_non_space(s, 0) == 0);
        assert(skip_bom(s, 0) == 0);
        assert(s.skip(0) =~= s);
    }
}

impl Subtitle {
    /// Parses a document from raw text: skips leading whitespace, then any
    /// leading byte-order marks, then reads block units until the end of the
    /// input. A failure carries the first characters (at most twenty) of the
    /// input at the failing position.
    pub fn parse(s: &str) -> (r: Result<Subtitle, ParseError>)
        ensures
            match r {
                Ok(sub) => sp_subtitle(doc_tail(s@)) == Ok::<Seq<BlockView>, Seq<char>>(sub@),
                Err(e) => sp_subtitle(doc_tail(s@)) matches Err(rem) && e.excerpt@ == excerpt_of(
                    rem,
                ),
            },
    {
        let n = s.unicode_len();
        let mut a: usize = 0;
        while a < n && char_is_space(s.get_char(a))
            invariant
                n == s@.len(),
                a <= n,
                forall|k: int| 0 <= k < a ==> is_space(#[trigger] s@[k]),
            decreases n - a,
        {
            a += 1;
        }
        let mut b: usize = a;
        while b < n && s.get_char(b) == '\u{feff}'
            invariant
                n == s@.len(),
                a <= b <= n,
                forall|k: int| a <= k < b ==> #[trigger] s@[k] == '\u{feff}',
            decreases n - b,
        {
            b += 1;
        }
        proof {
            lemma_first_non_space_at(s@, 0, a as int);
            lemma_skip_bom_at(s@, a as int, b as int);
        }
        let tail = s.substring_char(b, n);
        proof {
            assert(tail@ =~= doc_tail(s@));
        }
        match subtitle(tail) {
            Ok(sub) => Ok(sub),
            Err(p) => {
                let m = tail.unicode_len();
                let end = if m - p <= 20 {
                    m
                } else {
                    p + 20
                };
                let ex = tail.substring_char(p, end).to_owned();
                proof {
                    assert(ex@ =~= excerpt_of(tail@.skip(p as int)));
                }
                Err(ParseError { excerpt: ex })
            },
        }
    }
}

} // verus!
