//! The recorder's serialisation: one line per change, the path wrapped in
//! double quotes with embedded quotes doubled, then a comma, the
//! modification time as decimal seconds since the epoch, and a newline.
//! A log that does not exist yet is opened with a fixed header line.

use vstd::prelude::*;
use crate::change::{Change, ChangeModel};

verus! {

/// The double-quote byte that wraps and escapes the path field.
pub const QUOTE: u8 = 34;

/// The byte that separates the path field from the timestamp field.
pub const COMMA: u8 = 44;

/// The byte that terminates every log line.
pub const NEWLINE: u8 = 10;

/// The byte of the digit zero.
pub const ZERO: u8 = 48;

/// `p` with every double-quote byte doubled, as it stands between the
/// wrapping quotes of a log line.
pub open spec fn escaped(p: Seq<u8>) -> Seq<u8>
    decreases p.len(),
{
    if p.len() == 0 {
        Seq::empty()
    } else if p[0] == QUOTE {
        seq![QUOTE, QUOTE] + escaped(p.skip(1))
    } else {
        seq![p[0]] + escaped(p.skip(1))
    }
}

/// The decimal digits of `n`, most significant first.
pub open spec fn decimal(n: nat) -> Seq<u8>
    decreases n,
{
    if n < 10 {
        seq![(ZERO + n) as u8]
    } else {
        decimal(n / 10) + seq![(ZERO + n % 10) as u8]
    }
}

/// One log line for the change `c`: the quoted escaped path, a comma, the
/// timestamp in decimal, and a newline.
pub open spec fn line_for(c: ChangeModel) -> Seq<u8> {
    seq![QUOTE] + escaped(c.path) + seq![QUOTE, COMMA] + decimal(c.timestamp as nat)
        + seq![NEWLINE]
}

/// The log lines for the changes, in order.
pub open spec fn lines_for(cs: Seq<ChangeModel>) -> Seq<u8>
    decreases cs.len(),
{
    if cs.len() == 0 {
        Seq::empty()
    } else {
        line_for(cs[0]) + lines_for(cs.skip(1))
    }
}

/// The fixed header line, the bytes of `path,timestamp` and a newline,
/// that opens a new log.
pub open spec fn header() -> Seq<u8> {
    seq![112u8, 97, 116, 104, 44, 116, 105, 109, 101, 115, 116, 97, 109, 112, 10]
}

/// Appends `p` with doubled quotes to `out`.
fn push_escaped(out: &mut Vec<u8>, p: &Vec<u8>)
    ensures
        final(out)@ == old(out)@ + escaped(p@),
{
    let ghost base = out@;
    proof {
        assert(p@.skip(0) =~= p@);
    }
    let mut i: usize = 0;
    while i < p.len()
        invariant
            0 <= i <= p@.len(),
            base + escaped(p@) == out@ + escaped(p@.skip(i as int)),
        decreases p@.len() - i,
    {
        let ghost pre = out@;
        let b = p[i];
        if b == QUOTE {
            out.push(QUOTE);
            out.push(QUOTE);
        } else {
            out.push(b);
        }
        proof {
            assert(p@.skip(i as int)[0] == p@[i as int]);
            assert(p@.skip(i as int).skip(1) =~= p@.skip(i as int + 1));
            if p@[i as int] == QUOTE {
                assert(out@ =~= pre + seq![QUOTE, QUOTE]);
                assert(pre + (seq![QUOTE, QUOTE] + escaped(p@.skip(i as int + 1))) =~= (pre
                    + seq![QUOTE, QUOTE]) + escaped(p@.skip(i as int + 1)));
            } else {
                assert(out@ =~= pre + seq![p@[i as int]]);
                assert(pre + (seq![p@[i as int]] + escaped(p@.skip(i as int + 1))) =~= (pre
                    + seq![p@[i as int]]) + escaped(p@.skip(i as int + 1)));
            }
        }
        i += 1;
    }
    proof {
        assert(p@.skip(p@.len() as int) =~= Seq::<u8>::empty());
        assert(out@ + escaped(Seq::<u8>::empty()) =~= out@);
    }
}

/// Appends the decimal digits of `n` to `out`.
fn push_decimal(out: &mut Vec<u8>, n: u64)
    ensures
        final(out)@ == old(out)@ + decimal(n as nat),
    decreases n,
{
    if n < 10 {
        out.push(ZERO + (n as u8));
        proof {
            assert(old(out)@ + decimal(n as nat) =~= old(out)@.push((ZERO + n as nat) as u8));
        }
    } else {
        push_decimal(out, n / 10);
        let ghost mid = out@;
        out.push(ZERO + ((n % 10) as u8));
        proof {
            assert((n / 10) as nat == (n as nat) / 10);
            assert((n % 10) as nat == (n as nat) % 10);
            assert(out@ =~= mid + seq![(ZERO + (n as nat) % 10) as u8]);
            assert(old(out)@ + (decimal((n as nat) / 10) + seq![(ZERO + (n as nat) % 10) as u8])
                =~= (old(out)@ + decimal((n as nat) / 10)) + seq![(ZERO + (n as nat) % 10) as u8]);
        }
    }
}

/// Appends the fixed header line to `out`.
fn push_header(out: &mut Vec<u8>)
    ensures
        final(out)@ == old(out)@ + header(),
{
    out.push(112);
    out.push(97);
    out.push(116);
    out.push(104);
    out.push(44);
    out.push(116);
    out.push(105);
    out.push(109);
    out.push(101);
    out.push(115);
    out.push(116);
    out.push(97);
    out.push(109);
    out.push(112);
    out.push(10);
    proof {
        assert(out@ =~= old(out)@ + header());
    }
}

/// Appends one log line for `c` to `out`.
fn push_line(out: &mut Vec<u8>, c: &Change)
    ensures
        final(out)@ == old(out)@ + line_for(c@),
{
    out.push(QUOTE);
    push_escaped(out, &c.path);
    out.push(QUOTE);
    out.push(COMMA);
    push_decimal(out, c.timestamp);
    out.push(NEWLINE);
    proof {
        assert(out@ =~= old(out)@ + line_for(c@));
    }
}

/// The recorder: remembers where the log lives and renders batches of
/// changes into the bytes that are appended there.
pub struct CsvHandler {
    pub path: Vec<u8>,
}

impl CsvHandler {
    /// Builds a recorder that appends to the log at `path`.
    pub fn new(path: Vec<u8>) -> (h: CsvHandler)
        ensures
            h.path@ == path@,
    {
        CsvHandler { path }
    }

    /// The location of the backing log, for the code that opens it.
    pub fn target(&self) -> (r: &Vec<u8>)
        ensures
            r@ == self.path@,
    {
        &self.path
    }

    /// The bytes that saving `changes` appends to the log: nothing at all
    /// for an empty batch, so an empty save never creates nor touches the
    /// store; otherwise the header first when the store does not exist
    /// yet, then one line per change, in order.
    pub fn render_batch(&self, changes: &Vec<Change>, store_exists: bool) -> (r: Option<Vec<u8>>)
        ensures
            match r {
                None => changes@.len() == 0,
                Some(bytes) => changes@.len() > 0 && bytes@ == (if store_exists {
                    Seq::<u8>::empty()
                } else {
                    header()
                }) + lines_for(changes.deep_view()),
            },
    {
        if changes.len() == 0 {
            return None;
        }
        let mut out: Vec<u8> = Vec::new();
        if !store_exists {
            push_header(&mut out);
        }
        let ghost lead: Seq<u8> = if store_exists {
            Seq::empty()
        } else {
            header()
        };
        proof {
            assert(out@ =~= lead);
        }
        let ghost cs = changes.deep_view();
        proof {
            assert(cs.skip(0) =~= cs);
        }
        let mut i: usize = 0;
        while i < changes.len()
            invariant
                0 <= i <= changes@.len(),
                cs == changes.deep_view(),
                cs.len() == changes@.len(),
                lead == (if store_exists {
                    Seq::<u8>::empty()
                } else {
                    header()
                }),
                lead + lines_for(cs) == out@ + lines_for(cs.skip(i as int)),
            decreases changes@.len() - i,
        {
            let ghost pre = out@;
            push_line(&mut out, &changes[i]);
            proof {
                assert(changes@[i as int]@ == cs[i as int]);
                assert(cs.skip(i as int)[0] == cs[i as int]);
                assert(cs.skip(i as int).skip(1) =~= cs.skip(i as int + 1));
                assert(lines_for(cs.skip(i as int)) == line_for(cs[i as int]) + lines_for(
                    cs.skip(i as int + 1),
                ));
                assert(pre + (line_for(cs[i as int]) + lines_for(cs.skip(i as int + 1))) =~= (pre
                    + line_for(cs[i as int])) + lines_for(cs.skip(i as int + 1)));
            }
            i += 1;
        }
        proof {
            assert(cs.skip(cs.len() as int) =~= Seq::<ChangeModel>::empty());
            assert(out@ + lines_for(Seq::<ChangeModel>::empty()) =~= out@);
        }
        Some(out)
    }
}

} // verus!
