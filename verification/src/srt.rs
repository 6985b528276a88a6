//! The data model of a subtitle document: time values, timed text blocks, and
//! the document that owns them, together with its serialized form.

use vstd::prelude::*;
use vstd::string::StringExecFns;

use crate::text::{dec_digits, digit_char, digit_str, u64_to_text};

verus! {

/// Milliseconds in one second, minute, and hour of media time.
pub const MS_PER_SECOND: u64 = 1000;

pub const MS_PER_MINUTE: u64 = 60000;

pub const MS_PER_HOUR: u64 = 3600000;

/// The flat millisecond count that four clock components denote.
pub open spec fn time_ms(h: nat, m: nat, s: nat, ms: nat) -> nat {
    ms + 1000 * s + 60000 * m + 3600000 * h
}

/// An elapsed time since the start of the media, in milliseconds.
#[derive(Clone, Copy, Debug)]
pub struct TimePoint {
    ms: u64,
}

impl View for TimePoint {
    type V = nat;

    closed spec fn view(&self) -> nat {
        self.ms as nat
    }
}

impl TimePoint {
    /// Folds clock components into a flat millisecond count; components out of
    /// their conventional ranges are accepted and weighted in.
    pub fn from_components(h: u64, m: u64, s: u64, ms: u64) -> (r: TimePoint)
        requires
            time_ms(h as nat, m as nat, s as nat, ms as nat) <= u64::MAX,
        ensures
            r@ == time_ms(h as nat, m as nat, s as nat, ms as nat),
    {
        TimePoint { ms: ms + MS_PER_SECOND * s + MS_PER_MINUTE * m + MS_PER_HOUR * h }
    }

    pub fn total_ms(&self) -> (r: u64)
        ensures
            r as nat == self@,
    {
        self.ms
    }

    /// A time value from an already-folded millisecond count.
    pub(crate) fn from_total(ms: u64) -> (r: TimePoint)
        ensures
            r@ == ms as nat,
    {
        TimePoint { ms }
    }

    /// Renders `HH:MM:SS,mmm`, each clock component wrapped into its display
    /// range by a modulus — the hours included, mirroring the established
    /// behaviour for values of sixty hours and more.
    pub fn to_text(&self) -> (r: String)
        ensures
            r@ == time_text(self@),
    {
        let h = (self.ms / MS_PER_HOUR) % 60;
        let m = (self.ms / MS_PER_MINUTE) % 60;
        let s = (self.ms / MS_PER_SECOND) % 60;
        let ms = self.ms % 1000;
        let mut out = pad2_text(h);
        out.append(":");
        let mt = pad2_text(m);
        out.append(mt.as_str());
        out.append(":");
        let st = pad2_text(s);
        out.append(st.as_str());
        out.append(",");
        let mst = pad3_text(ms);
        out.append(mst.as_str());
        proof {
            reveal_strlit(":");
            reveal_strlit(",");
            assert(":"@ =~= seq![':']);
            assert(","@ =~= seq![',']);
            assert(out@ =~= time_text(self@));
        }
        out
    }
}

/// One timed caption unit: a time range and a text body.
#[derive(Debug)]
pub struct SubBlock {
    pub start: TimePoint,
    pub end: TimePoint,
    pub text: String,
}

/// The mathematical content of one block: its two times in milliseconds and
/// its text as a character sequence.
pub ghost struct BlockView {
    pub start_ms: nat,
    pub end_ms: nat,
    pub text: Seq<char>,
}

impl View for SubBlock {
    type V = BlockView;

    open spec fn view(&self) -> BlockView {
        BlockView { start_ms: self.start@, end_ms: self.end@, text: self.text@ }
    }
}

/// The serialized form of one block without its ordinal: the time-range line
/// and the text body.
pub open spec fn block_body(b: BlockView) -> Seq<char> {
    time_text(b.start_ms) + arrow_sep() + time_text(b.end_ms) + seq!['\n'] + b.text
}

impl SubBlock {
    /// Renders the time-range line and the text body, without an ordinal.
    pub fn to_text(&self) -> (r: String)
        ensures
            r@ == block_body(self@),
    {
        let mut out = self.start.to_text();
        out.append(" --> ");
        let en = self.end.to_text();
        out.append(en.as_str());
        out.append("\n");
        out.append(self.text.as_str());
        proof {
            reveal_strlit(" --> ");
            reveal_strlit("\n");
            assert(" --> "@ =~= arrow_sep());
            assert("\n"@ =~= seq!['\n']);
        }
        out
    }
}

/// An ordered sequence of timed text blocks.
#[derive(Debug)]
pub struct Subtitle {
    pub blocks: Vec<SubBlock>,
}

pub open spec fn blocks_view(bs: Seq<SubBlock>) -> Seq<BlockView> {
    bs.map_values(|b: SubBlock| b@)
}

impl View for Subtitle {
    type V = Seq<BlockView>;

    open spec fn view(&self) -> Seq<BlockView> {
        blocks_view(self.blocks@)
    }
}

/// A structural parse failure, carrying the leading characters (at most
/// twenty) of the input at the position that could not be parsed.
#[derive(Debug)]
pub struct ParseError {
    pub excerpt: String,
}

/// Two decimal digits, the value taken modulo one hundred.
pub open spec fn pad2(n: nat) -> Seq<char> {
    seq![digit_char(n / 10 % 10), digit_char(n % 10)]
}

/// Three decimal digits, the value taken modulo one thousand.
pub open spec fn pad3(n: nat) -> Seq<char> {
    seq![digit_char(n / 100 % 10), digit_char(n / 10 % 10), digit_char(n % 10)]
}

/// The serialized form of a time value: `HH:MM:SS,mmm`, every clock component
/// wrapped by a modulus into its two-digit display range.
pub open spec fn time_text(ms: nat) -> Seq<char> {
    pad2(ms / 3600000 % 60) + seq![':'] + pad2(ms / 60000 % 60) + seq![':'] + pad2(ms / 1000 % 60)
        + seq![','] + pad3(ms % 1000)
}

/// The separator between the two times of a time-range line.
pub open spec fn arrow_sep() -> Seq<char> {
    seq![' ', '-', '-', '>', ' ']
}

/// The serialized form of one block under the ordinal `ord`.
pub open spec fn render_block(ord: nat, b: BlockView) -> Seq<char> {
    dec_digits(ord) + seq!['\n'] + time_text(b.start_ms) + arrow_sep() + time_text(b.end_ms)
        + seq!['\n'] + b.text + seq!['\n', '\n']
}

/// The serialized form of a block sequence, ordinals counting up from `ord`.
pub open spec fn render_blocks(bs: Seq<BlockView>, ord: nat) -> Seq<char>
    decreases bs.len(),
{
    if bs.len() == 0 {
        Seq::empty()
    } else {
        render_block(ord, bs[0]) + render_blocks(bs.drop_first(), ord + 1)
    }
}

/// The serialized form of a whole document: ordinals renumbered from one.
pub open spec fn render_doc(bs: Seq<BlockView>) -> Seq<char> {
    render_blocks(bs, 1)
}

proof fn lemma_seq_add_assoc(x: Seq<char>, y: Seq<char>, z: Seq<char>)
    ensures
        x + (y + z) == (x + y) + z,
{
    assert(x + (y + z) =~= (x + y) + z);
}

proof fn lemma_seq_add_empty(x: Seq<char>)
    ensures
        x + Seq::<char>::empty() == x,
        Seq::<char>::empty() + x == x,
{
    assert(x + Seq::<char>::empty() =~= x);
    assert(Seq::<char>::empty() + x =~= x);
}

proof fn lemma_render_blocks_push(bs: Seq<BlockView>, b: BlockView, ord: nat)
    ensures
        render_blocks(bs.push(b), ord) == render_blocks(bs, ord) + render_block(
            ord + bs.len(),
            b,
        ),
    decreases bs.len(),
{
    if bs.len() == 0 {
        assert(bs.push(b).drop_first() =~= Seq::<BlockView>::empty());
        assert(bs.push(b)[0] == b);
        let z = render_block(ord, b);
        assert(render_blocks(Seq::<BlockView>::empty(), ord + 1) == Seq::<char>::empty());
        assert(render_blocks(bs.push(b), ord) == z + Seq::<char>::empty());
        lemma_seq_add_empty(z);
    } else {
        lemma_render_blocks_push(bs.drop_first(), b, ord + 1);
        assert(bs.push(b).drop_first() =~= bs.drop_first().push(b));
        assert(bs.push(b)[0] == bs[0]);
        let x = render_block(ord, bs[0]);
        let y = render_blocks(bs.drop_first(), ord + 1);
        let z = render_block(ord + bs.len(), b);
        assert(render_blocks(bs.push(b), ord) == x + (y + z));
        lemma_seq_add_assoc(x, y, z);
    }
}

fn pad2_text(n: u64) -> (r: String)
    requires
        n < 100,
    ensures
        r@ == pad2(n as nat),
{
    let mut r = digit_str(n / 10);
    let t = digit_str(n % 10);
    r.append(t.as_str());
    proof {
        assert(r@ =~= pad2(n as nat));
    }
    r
}

fn pad3_text(n: u64) -> (r: String)
    requires
        n < 1000,
    ensures
        r@ == pad3(n as nat),
{
    let mut r = digit_str(n / 100);
    let t = digit_str((n / 10) % 10);
    r.append(t.as_str());
    let u = digit_str(n % 10);
    r.append(u.as_str());
    proof {
        assert(r@ =~= pad3(n as nat));
    }
    r
}

/// The serialized form of one block under the ordinal `ord`, as text.
#[verifier::rlimit(50)]
fn block_text(b: &SubBlock, ord: u64) -> (r: String)
    ensures
        r@ == render_block(ord as nat, b@),
{
    let mut piece = u64_to_text(ord);
    piece.append("\n");
    let st = b.start.to_text();
    piece.append(st.as_str());
    piece.append(" --> ");
    let en = b.end.to_text();
    piece.append(en.as_str());
    piece.append("\n");
    piece.append(b.text.as_str());
    piece.append("\n\n");
    proof {
        reveal_strlit("\n");
        reveal_strlit(" --> ");
        reveal_strlit("\n\n");
        assert("\n"@ =~= seq!['\n']);
        assert(" --> "@ =~= arrow_sep());
        assert("\n\n"@ =~= seq!['\n', '\n']);
        assert(piece@ == render_block(ord as nat, b@));
    }
    piece
}

impl Subtitle {
    /// Serializes the document: every surviving block in order, each under a
    /// fresh one-based ordinal, regardless of the ordinals of the source text.
    #[verifier::rlimit(50)]
    pub fn to_text(&self) -> (r: String)
        ensures
            r@ == render_doc(self@),
    {
        let mut out = String::new();
        let n = self.blocks.len();
        let mut i: usize = 0;
        proof {
            assert(self@.take(0) =~= Seq::<BlockView>::empty());
        }
        while i < n
            invariant
                i <= n,
                n == self.blocks.len(),
                out@ == render_blocks(self@.take(i as int), 1),
            decreases n - i,
        {
            let ord = (i as u64) + 1;
            let piece = block_text(&self.blocks[i], ord);
            out.append(piece.as_str());
            proof {
                assert(self@[i as int] == self.blocks@[i as int]@);
                lemma_render_blocks_push(self@.take(i as int), self@[i as int], 1);
                assert(self@.take(i as int).push(self@[i as int]) =~= self@.take(i as int + 1));
                assert(ord as nat == 1 + self@.take(i as int).len());
            }
            i += 1;
        }
        proof {
            assert(self@.take(n as int) =~= self@);
        }
        out
    }
}

} // verus!
