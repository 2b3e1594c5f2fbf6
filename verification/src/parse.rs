//! Reading the log back: a parser for the format the recorder writes, and
//! the proofs that parsing reverses rendering.

use vstd::prelude::*;
use crate::change::{Change, ChangeModel, lemma_deep_view_push};
use crate::codec::{COMMA, NEWLINE, QUOTE, ZERO, decimal, escaped, header, line_for, lines_for};

verus! {

/// Whether `b` is the byte of a decimal digit.
pub open spec fn is_digit(b: u8) -> bool {
    ZERO <= b <= ZERO + 9
}

/// Reads a quoted field from the front of `d`, the opening quote already
/// consumed: a doubled quote stands for one quote byte of the field, a
/// lone quote closes it. Yields the field and what follows the closing
/// quote.
pub open spec fn parse_quoted(d: Seq<u8>) -> Option<(Seq<u8>, Seq<u8>)>
    decreases d.len(),
{
    if d.len() == 0 {
        None
    } else if d[0] == QUOTE {
        if d.len() >= 2 && d[1] == QUOTE {
            match parse_quoted(d.skip(2)) {
                None => None,
                Some((p, r)) => Some((seq![QUOTE] + p, r)),
            }
        } else {
            Some((Seq::empty(), d.skip(1)))
        }
    } else {
        match parse_quoted(d.skip(1)) {
            None => None,
            Some((p, r)) => Some((seq![d[0]] + p, r)),
        }
    }
}

/// Folds the digit run at the front of `d` onto `acc`, and yields what
/// follows the digits.
pub open spec fn parse_digits(d: Seq<u8>, acc: nat) -> (nat, Seq<u8>)
    decreases d.len(),
{
    if d.len() > 0 && is_digit(d[0]) {
        parse_digits(d.skip(1), acc * 10 + (d[0] - ZERO) as nat)
    } else {
        (acc, d)
    }
}

/// Reads a decimal number from the front of `d`: at least one digit, up to
/// the first non-digit.
pub open spec fn parse_number(d: Seq<u8>) -> Option<(nat, Seq<u8>)> {
    if d.len() > 0 && is_digit(d[0]) {
        Some(parse_digits(d, 0))
    } else {
        None
    }
}

/// Reads one log line from the front of `d`: a quoted path, a comma, a
/// timestamp that fits 64 bits, and a newline.
pub open spec fn parse_line(d: Seq<u8>) -> Option<(ChangeModel, Seq<u8>)> {
    if d.len() > 0 && d[0] == QUOTE {
        match parse_quoted(d.skip(1)) {
            None => None,
            Some((p, r1)) => if r1.len() > 0 && r1[0] == COMMA {
                match parse_number(r1.skip(1)) {
                    None => None,
                    Some((t, r2)) => if t <= u64::MAX && r2.len() > 0 && r2[0] == NEWLINE {
                        Some((ChangeModel { path: p, timestamp: t as u64 }, r2.skip(1)))
                    } else {
                        None
                    },
                }
            } else {
                None
            },
        }
    } else {
        None
    }
}

/// Law: a parsed quoted field consumes at least its closing quote.
proof fn lemma_parse_quoted_shrinks(d: Seq<u8>)
    ensures
        parse_quoted(d) matches Some(pr) ==> pr.1.len() < d.len(),
    decreases d.len(),
{
    if d.len() == 0 {
    } else if d[0] == QUOTE {
        if d.len() >= 2 && d[1] == QUOTE {
            lemma_parse_quoted_shrinks(d.skip(2));
        }
    } else {
        lemma_parse_quoted_shrinks(d.skip(1));
    }
}

/// Law: a digit run never grows the remaining input.
proof fn lemma_parse_digits_shrinks(d: Seq<u8>, acc: nat)
    ensures
        parse_digits(d, acc).1.len() <= d.len(),
    decreases d.len(),
{
    if d.len() > 0 && is_digit(d[0]) {
        lemma_parse_digits_shrinks(d.skip(1), acc * 10 + (d[0] - ZERO) as nat);
    }
}

/// Law: a parsed line consumes at least one byte.
proof fn lemma_parse_line_shrinks(d: Seq<u8>)
    ensures
        parse_line(d) matches Some(cr) ==> cr.1.len() < d.len(),
{
    if d.len() > 0 && d[0] == QUOTE {
        lemma_parse_quoted_shrinks(d.skip(1));
        match parse_quoted(d.skip(1)) {
            None => {
            },
            Some((p, r1)) => {
                if r1.len() > 0 && r1[0] == COMMA {
                    lemma_parse_digits_shrinks(r1.skip(1), 0);
                }
            },
        }
    }
}

/// Reads log lines from the front of `d` to its end.
pub open spec fn parse_lines(d: Seq<u8>) -> Option<Seq<ChangeModel>>
    decreases d.len(),
    via parse_lines_decreases
{
    if d.len() == 0 {
        Some(Seq::empty())
    } else {
        match parse_line(d) {
            None => None,
            Some((c, r)) => match parse_lines(r) {
                None => None,
                Some(rest) => Some(seq![c] + rest),
            },
        }
    }
}

#[via_fn]
proof fn parse_lines_decreases(d: Seq<u8>) {
    lemma_parse_line_shrinks(d);
}

/// Reads a whole log: the fixed header line, then any number of change
/// lines.
pub open spec fn parse_log(d: Seq<u8>) -> Option<Seq<ChangeModel>> {
    if d.len() >= header().len() && d.take(header().len() as int) == header() {
        parse_lines(d.skip(header().len() as int))
    } else {
        None
    }
}

/// Law: reading a quoted field reverses the quote doubling: the escaped
/// path with its closing quote parses back to the path and leaves exactly
/// what follows, as long as what follows does not begin with a quote.
pub proof fn lemma_quoted_round_trip(p: Seq<u8>, rest: Seq<u8>)
    requires
        rest.len() > 0 ==> rest[0] != QUOTE,
    ensures
        parse_quoted(escaped(p) + seq![QUOTE] + rest) == Some((p, rest)),
    decreases p.len(),
{
    let d = escaped(p) + seq![QUOTE] + rest;
    if p.len() == 0 {
        assert(d =~= seq![QUOTE] + rest);
        assert(d[0] == QUOTE);
        if d.len() >= 2 {
            assert(d[1] == rest[0]);
        }
        assert(d.skip(1) =~= rest);
        assert(p =~= Seq::<u8>::empty());
    } else if p[0] == QUOTE {
        assert(d =~= seq![QUOTE, QUOTE] + (escaped(p.skip(1)) + seq![QUOTE] + rest));
        assert(d[0] == QUOTE && d[1] == QUOTE && d.len() >= 2);
        assert(d.skip(2) =~= escaped(p.skip(1)) + seq![QUOTE] + rest);
        lemma_quoted_round_trip(p.skip(1), rest);
        assert(seq![QUOTE] + p.skip(1) =~= p);
    } else {
        assert(d =~= seq![p[0]] + (escaped(p.skip(1)) + seq![QUOTE] + rest));
        assert(d[0] == p[0] && d[0] != QUOTE);
        assert(d.skip(1) =~= escaped(p.skip(1)) + seq![QUOTE] + rest);
        lemma_quoted_round_trip(p.skip(1), rest);
        assert(seq![p[0]] + p.skip(1) =~= p);
    }
}

/// The power of ten that shifts past all the digits of `n`.
pub open spec fn shift_for(n: nat) -> nat
    decreases n,
{
    if n < 10 {
        10
    } else {
        10 * shift_for(n / 10)
    }
}

/// Law: reading digits reverses decimal rendering, folding the parsed
/// value onto the shifted accumulator.
proof fn lemma_digits_round_trip(n: nat, acc: nat, rest: Seq<u8>)
    ensures
        parse_digits(decimal(n) + rest, acc) == parse_digits(rest, acc * shift_for(n) + n),
    decreases n,
{
    let d = decimal(n) + rest;
    if n < 10 {
        assert(decimal(n) =~= seq![(ZERO + n) as u8]);
        assert(d[0] == (ZERO + n) as u8);
        assert(is_digit(d[0]));
        assert((d[0] - ZERO) as nat == n);
        assert(d.skip(1) =~= rest);
        assert(acc * 10 + n == acc * shift_for(n) + n);
    } else {
        let dig = (ZERO + n % 10) as u8;
        assert(decimal(n) =~= decimal(n / 10) + seq![dig]);
        assert(d =~= decimal(n / 10) + (seq![dig] + rest));
        lemma_digits_round_trip(n / 10, acc, seq![dig] + rest);
        let mid = acc * shift_for(n / 10) + n / 10;
        let e = seq![dig] + rest;
        assert(e[0] == dig);
        assert(is_digit(dig));
        assert((dig - ZERO) as nat == n % 10);
        assert(e.skip(1) =~= rest);
        assert(parse_digits(e, mid) == parse_digits(rest, mid * 10 + n % 10));
        assert((acc * shift_for(n / 10) + n / 10) * 10 + n % 10 == acc * (10 * shift_for(n / 10))
            + (10 * (n / 10) + n % 10)) by (nonlinear_arith);
        assert(shift_for(n) == 10 * shift_for(n / 10));
        assert(10 * (n / 10) + n % 10 == n);
    }
}

/// Law: the digits of `n` begin with a digit byte.
proof fn lemma_decimal_first_digit(n: nat)
    ensures
        decimal(n).len() > 0 && is_digit(decimal(n)[0]),
    decreases n,
{
    if n < 10 {
    } else {
        lemma_decimal_first_digit(n / 10);
        assert(decimal(n)[0] == decimal(n / 10)[0]);
    }
}

/// Law: reading a number reverses decimal rendering, as long as what
/// follows does not begin with a digit.
pub proof fn lemma_number_round_trip(n: nat, rest: Seq<u8>)
    requires
        rest.len() > 0 ==> !is_digit(rest[0]),
    ensures
        parse_number(decimal(n) + rest) == Some((n, rest)),
{
    let d = decimal(n) + rest;
    lemma_decimal_first_digit(n);
    assert(d[0] == decimal(n)[0]);
    lemma_digits_round_trip(n, 0, rest);
    assert(0 * shift_for(n) + n == n);
}

/// Law: one rendered line parses back to its change, and leaves exactly
/// what follows the line.
pub proof fn lemma_line_round_trip(c: ChangeModel, rest: Seq<u8>)
    ensures
        parse_line(line_for(c) + rest) == Some((c, rest)),
{
    let d = line_for(c) + rest;
    let after_path = seq![COMMA] + decimal(c.timestamp as nat) + seq![NEWLINE] + rest;
    let after_num = seq![NEWLINE] + rest;
    assert(d[0] == QUOTE);
    assert(d.skip(1) =~= escaped(c.path) + seq![QUOTE] + after_path);
    assert(after_path[0] == COMMA && after_path[0] != QUOTE);
    lemma_quoted_round_trip(c.path, after_path);
    assert(after_path.skip(1) =~= decimal(c.timestamp as nat) + after_num);
    assert(after_num[0] == NEWLINE && !is_digit(NEWLINE));
    lemma_number_round_trip(c.timestamp as nat, after_num);
    assert(after_num.skip(1) =~= rest);
    assert(ChangeModel { path: c.path, timestamp: c.timestamp } =~= c);
}

/// Law: rendered lines parse back to the changes they were made from, in
/// order.
pub proof fn lemma_lines_round_trip(cs: Seq<ChangeModel>)
    ensures
        parse_lines(lines_for(cs)) == Some(cs),
    decreases cs.len(),
{
    if cs.len() == 0 {
        assert(cs =~= Seq::<ChangeModel>::empty());
    } else {
        let d = lines_for(cs);
        lemma_line_round_trip(cs[0], lines_for(cs.skip(1)));
        assert(d.len() > 0);
        lemma_lines_round_trip(cs.skip(1));
        assert(seq![cs[0]] + cs.skip(1) =~= cs);
    }
}

/// Law: a digit run folds to at least the accumulator it started from.
proof fn lemma_parse_digits_monotone(d: Seq<u8>, acc: nat)
    ensures
        parse_digits(d, acc).0 >= acc,
    decreases d.len(),
{
    if d.len() > 0 && is_digit(d[0]) {
        lemma_parse_digits_monotone(d.skip(1), acc * 10 + (d[0] - ZERO) as nat);
    }
}

/// Reads the quoted path that begins at `i`, just after its opening
/// quote. Yields the path and the position just after the closing quote.
fn scan_quoted(d: &Vec<u8>, i: usize) -> (r: Option<(Vec<u8>, usize)>)
    requires
        i <= d@.len(),
    ensures
        match r {
            None => parse_quoted(d@.skip(i as int)) is None,
            Some((p, j)) => i <= j <= d@.len() && parse_quoted(d@.skip(i as int)) == Some(
                (p@, d@.skip(j as int)),
            ),
        },
    decreases d@.len() - i,
{
    if i >= d.len() {
        return None;
    }
    let b: u8 = d[i];
    proof {
        assert(d@.skip(i as int)[0] == d@[i as int]);
    }
    if b == QUOTE {
        if i + 1 < d.len() && d[i + 1] == QUOTE {
            proof {
                assert(d@.skip(i as int)[1] == d@[i as int + 1]);
                assert(d@.skip(i as int).skip(2) =~= d@.skip(i as int + 2));
            }
            match scan_quoted(d, i + 2) {
                None => None,
                Some((p, j)) => {
                    let ghost tail = p@;
                    let mut p = p;
                    p.insert(0, QUOTE);
                    proof {
                        assert(p@ =~= seq![QUOTE] + tail);
                    }
                    Some((p, j))
                },
            }
        } else {
            proof {
                if i + 1 < d.len() {
                    assert(d@.skip(i as int)[1] == d@[i as int + 1]);
                }
                assert(d@.skip(i as int).skip(1) =~= d@.skip(i as int + 1));
            }
            Some((Vec::new(), i + 1))
        }
    } else {
        proof {
            assert(d@.skip(i as int).skip(1) =~= d@.skip(i as int + 1));
        }
        match scan_quoted(d, i + 1) {
            None => None,
            Some((p, j)) => {
                let ghost tail = p@;
                let mut p = p;
                p.insert(0, b);
                proof {
                    assert(p@ =~= seq![d@[i as int]] + tail);
                }
                Some((p, j))
            },
        }
    }
}

/// Reads the decimal timestamp that begins at `i`. Yields nothing when no
/// digit stands there, or when the written value does not fit a 64-bit
/// count of seconds.
fn scan_number(d: &Vec<u8>, i: usize) -> (r: Option<(u64, usize)>)
    requires
        i <= d@.len(),
    ensures
        match r {
            None => parse_number(d@.skip(i as int)) is None || (parse_number(
                d@.skip(i as int),
            ) matches Some(pr) && pr.0 > u64::MAX),
            Some((v, j)) => i <= j <= d@.len() && parse_number(d@.skip(i as int)) == Some(
                (v as nat, d@.skip(j as int)),
            ),
        },
{
    if i >= d.len() || d[i] < ZERO || d[i] > ZERO + 9 {
        proof {
            if i < d@.len() {
                assert(d@.skip(i as int)[0] == d@[i as int]);
            }
        }
        return None;
    }
    let ghost start = d@.skip(i as int);
    let mut acc: u64 = 0;
    let mut j: usize = i;
    while j < d.len() && d[j] >= ZERO && d[j] <= ZERO + 9
        invariant
            i <= j <= d@.len(),
            parse_digits(start, 0) == parse_digits(d@.skip(j as int), acc as nat),
            start == d@.skip(i as int),
        decreases d@.len() - j,
    {
        let dig: u8 = d[j] - ZERO;
        proof {
            assert(d@.skip(j as int)[0] == d@[j as int]);
            assert(d@.skip(j as int).skip(1) =~= d@.skip(j as int + 1));
        }
        if acc > (u64::MAX - (dig as u64)) / 10 {
            proof {
                lemma_parse_digits_monotone(
                    d@.skip(j as int + 1),
                    (acc as nat) * 10 + (dig as nat),
                );
                assert((acc as nat) * 10 + (dig as nat) > u64::MAX);
            }
            return None;
        }
        acc = acc * 10 + (dig as u64);
        j += 1;
    }
    proof {
        if j < d@.len() {
            assert(d@.skip(j as int)[0] == d@[j as int]);
        }
        assert(parse_digits(d@.skip(j as int), acc as nat) == (acc as nat, d@.skip(j as int)));
    }
    Some((acc, j))
}

/// Reads one log line that begins at `i`. Yields the change and the
/// position just after the line's newline.
fn scan_line(d: &Vec<u8>, i: usize) -> (r: Option<(Change, usize)>)
    requires
        i <= d@.len(),
    ensures
        match r {
            None => parse_line(d@.skip(i as int)) is None,
            Some((c, j)) => i < j <= d@.len() && parse_line(d@.skip(i as int)) == Some(
                (c@, d@.skip(j as int)),
            ),
        },
{
    if i >= d.len() || d[i] != QUOTE {
        proof {
            if i < d@.len() {
                assert(d@.skip(i as int)[0] == d@[i as int]);
            }
        }
        return None;
    }
    proof {
        assert(d@.skip(i as int)[0] == d@[i as int]);
        assert(d@.skip(i as int).skip(1) =~= d@.skip(i as int + 1));
    }
    match scan_quoted(d, i + 1) {
        None => None,
        Some((p, j1)) => {
            if j1 >= d.len() || d[j1] != COMMA {
                proof {
                    if j1 < d@.len() {
                        assert(d@.skip(j1 as int)[0] == d@[j1 as int]);
                    }
                }
                return None;
            }
            proof {
                assert(d@.skip(j1 as int)[0] == d@[j1 as int]);
                assert(d@.skip(j1 as int).skip(1) =~= d@.skip(j1 as int + 1));
            }
            match scan_number(d, j1 + 1) {
                None => None,
                Some((t, j2)) => {
                    if j2 >= d.len() || d[j2] != NEWLINE {
                        proof {
                            if j2 < d@.len() {
                                assert(d@.skip(j2 as int)[0] == d@[j2 as int]);
                            }
                        }
                        return None;
                    }
                    proof {
                        assert(d@.skip(j2 as int)[0] == d@[j2 as int]);
                        assert(d@.skip(j2 as int).skip(1) =~= d@.skip(j2 as int + 1));
                    }
                    Some((Change::new(p, t), j2 + 1))
                },
            }
        },
    }
}

/// Builds the fixed header line as bytes.
pub fn make_header() -> (r: Vec<u8>)
    ensures
        r@ == header(),
{
    let mut r: Vec<u8> = Vec::new();
    r.push(112);
    r.push(97);
    r.push(116);
    r.push(104);
    r.push(44);
    r.push(116);
    r.push(105);
    r.push(109);
    r.push(101);
    r.push(115);
    r.push(116);
    r.push(97);
    r.push(109);
    r.push(112);
    r.push(10);
    proof {
        assert(r@ =~= header());
    }
    r
}

/// Re-reads a whole log: demands the fixed header line, then reads change
/// lines to the end of the input.
pub fn scan_log(d: &Vec<u8>) -> (r: Option<Vec<Change>>)
    ensures
        match r {
            None => parse_log(d@) is None,
            Some(cs) => parse_log(d@) == Some(cs.deep_view()),
        },
{
    let h = make_header();
    if d.len() < h.len() {
        return None;
    }
    let mut k: usize = 0;
    while k < h.len()
        invariant
            0 <= k <= h@.len(),
            h@ == header(),
            h@.len() <= d@.len(),
            forall|m: int| 0 <= m < k ==> d@[m] == h@[m],
        decreases h@.len() - k,
    {
        if d[k] != h[k] {
            proof {
                assert(d@.take(header().len() as int)[k as int] == d@[k as int]);
            }
            return None;
        }
        k += 1;
    }
    proof {
        assert(d@.take(header().len() as int) =~= header());
    }
    let hlen: usize = h.len();
    let mut out: Vec<Change> = Vec::new();
    let mut i: usize = hlen;
    proof {
        assert(out.deep_view() =~= Seq::<ChangeModel>::empty());
        assert(Seq::<ChangeModel>::empty() + Seq::<ChangeModel>::empty() =~= Seq::<
            ChangeModel,
        >::empty());
    }
    while i < d.len()
        invariant
            hlen == header().len(),
            hlen <= i <= d@.len(),
            parse_lines(d@.skip(hlen as int)) == (match parse_lines(d@.skip(i as int)) {
                None => None,
                Some(rest) => Some(out.deep_view() + rest),
            }),
        decreases d@.len() - i,
    {
        match scan_line(d, i) {
            None => {
                return None;
            },
            Some((c, j)) => {
                let ghost cg = c;
                let ghost prev = out;
                let ghost rest_j = parse_lines(d@.skip(j as int));
                out.push(c);
                proof {
                    lemma_deep_view_push(out, prev, cg);
                    if rest_j is Some {
                        let rest = rest_j->0;
                        assert(parse_lines(d@.skip(i as int)) == Some(seq![cg@] + rest));
                        assert(prev.deep_view() + (seq![cg@] + rest) =~= (prev.deep_view()
                            + seq![cg@]) + rest);
                        assert(prev.deep_view() + seq![cg@] =~= out.deep_view());
                    }
                }
                i = j;
            },
        }
    }
    proof {
        assert(d@.skip(i as int).len() == 0);
        assert(parse_lines(d@.skip(i as int)) == Some(Seq::<ChangeModel>::empty()));
        assert(out.deep_view() + Seq::<ChangeModel>::empty() =~= out.deep_view());
    }
    Some(out)
}

/// Law: a freshly written log re-reads to exactly the changes that were
/// recorded: after the header line there is one line per change, each
/// parsing back to its path, with the quote doubling reversed, and its
/// timestamp.
pub proof fn lemma_log_round_trip(cs: Seq<ChangeModel>)
    ensures
        parse_log(header() + lines_for(cs)) == Some(cs),
{
    let d = header() + lines_for(cs);
    assert(d.take(header().len() as int) =~= header());
    assert(d.skip(header().len() as int) =~= lines_for(cs));
    lemma_lines_round_trip(cs);
}

} // verus!
