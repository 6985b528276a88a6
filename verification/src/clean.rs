//! The cleaning engine: a fixed, ordered pattern set of non-dialogue content
//! is erased from every block's text repeatedly until nothing more matches,
//! the result is line-trimmed, and blocks whose text ends up empty vanish.

use vstd::prelude::*;
use vstd::string::StringExecFns;

use crate::srt::{BlockView, SubBlock, Subtitle};
use crate::text::{clean_lines, join_trimmed_lines};

verus! {

/// The erasure rules, joined into one alternation, matched multi-line, with
/// `.` crossing line breaks and every quantifier non-greedy: music-marker
/// pairs and lone markers, `#` pairs, parenthetical asides, bracketed stage
/// directions, leading dialogue dashes (either hyphen), upper-case-led
/// speaker labels ending in a colon, angle-bracket markup tags, and one
/// literal service-credit line.
pub open spec fn clean_pattern() -> Seq<char> {
    "(?msU)\u{266a}.*\u{266a}|\u{266a}|#.*#|\\(.*\\)|\\[.*\\]|^\\s*[-\u{2010}]|-?\\p{Upper}[\\w\\s\\d\\-_]*:|<.*>|Subtitles downloaded from www\\.OpenSubtitles\\.org"@
}

/// The pattern as text, for the matching engine.
fn clean_pattern_str() -> (r: String)
    ensures
        r@ == clean_pattern(),
{
    "(?msU)\u{266a}.*\u{266a}|\u{266a}|#.*#|\\(.*\\)|\\[.*\\]|^\\s*[-\u{2010}]|-?\\p{Upper}[\\w\\s\\d\\-_]*:|<.*>|Subtitles downloaded from www\\.OpenSubtitles\\.org".to_owned()
}

/// What one erasure pass of the pattern set leaves of a text: the text with
/// every match of the alternation replaced by empty text.
pub uninterp spec fn strip_once(s: Seq<char>) -> Seq<char>;

/// Relies on `regex::Regex::new` (on the fixed, valid cleaning pattern) and
/// `regex::Regex::replace_all` with an empty replacement: one erasure pass
/// over the text. The pass depends on the text alone. Every alternative of
/// the pattern matches at least one character, so a pass that changed the
/// text strictly shortened it, and a pass that matched nothing returned the
/// text unchanged.
#[verifier::external_body]
fn strip_pass(pattern: &str, text: &str) -> (r: (String, bool))
    requires
        pattern@ == clean_pattern(),
    ensures
        r.0@ == strip_once(text@),
        r.1 ==> r.0@.len() < text@.len(),
        !r.1 ==> r.0@ == text@,
{
    let re = regex::Regex::new(pattern).unwrap();
    match re.replace_all(text, "") {
        std::borrow::Cow::Borrowed(_) => (text.to_owned(), false),
        std::borrow::Cow::Owned(t) => (t, true),
    }
}

/// `n` erasure passes over `s`.
pub open spec fn strip_iter(s: Seq<char>, n: nat) -> Seq<char>
    decreases n,
{
    if n == 0 {
        s
    } else {
        strip_once(strip_iter(s, (n - 1) as nat))
    }
}

/// A text that one more erasure pass leaves unchanged.
pub open spec fn strip_fixed(s: Seq<char>) -> bool {
    strip_once(s) == s
}

/// What cleaning makes of a block's text: erasure passes to a fixpoint, then
/// line-level tidying.
pub open spec fn cleans_to(t: Seq<char>, c: Seq<char>) -> bool {
    exists|n: nat| strip_fixed(#[trigger] strip_iter(t, n)) && c == clean_lines(strip_iter(t, n))
}

/// A surviving block: times kept, text cleaned and nonempty.
pub open spec fn block_cleans_to(b: BlockView, c: BlockView) -> bool {
    c.start_ms == b.start_ms && c.end_ms == b.end_ms && c.text.len() > 0 && cleans_to(
        b.text,
        c.text,
    )
}

/// A block whose text cleans to nothing; such a block is dropped.
pub open spec fn block_vanishes(b: BlockView) -> bool {
    cleans_to(b.text, Seq::empty())
}

/// How a cleaned document relates to the original: every block cleaned in
/// order, the vanishing ones dropped, the order of survivors kept.
pub open spec fn doc_cleans_to(before: Seq<BlockView>, after: Seq<BlockView>) -> bool
    decreases before.len(),
{
    if before.len() == 0 {
        after.len() == 0
    } else if block_vanishes(before[0]) {
        doc_cleans_to(before.drop_first(), after)
    } else {
        after.len() > 0 && block_cleans_to(before[0], after[0]) && doc_cleans_to(
            before.drop_first(),
            after.drop_first(),
        )
    }
}

/// Once a fixpoint is reached, further erasure passes change nothing.
proof fn lemma_strip_iter_stable(s: Seq<char>, n: nat, k: nat)
    requires
        strip_fixed(strip_iter(s, n)),
    ensures
        strip_iter(s, n + k) == strip_iter(s, n),
    decreases k,
{
    if k > 0 {
        lemma_strip_iter_stable(s, n, (k - 1) as nat);
        assert(strip_iter(s, n + k) == strip_once(strip_iter(s, (n + k - 1) as nat)));
    }
}

/// Cleaning a given text has exactly one outcome.
pub proof fn lemma_cleans_to_unique(t: Seq<char>, c1: Seq<char>, c2: Seq<char>)
    requires
        cleans_to(t, c1),
        cleans_to(t, c2),
    ensures
        c1 == c2,
{
    let n1 = choose|n: nat| strip_fixed(#[trigger] strip_iter(t, n)) && c1 == clean_lines(
        strip_iter(t, n),
    );
    let n2 = choose|n: nat| strip_fixed(#[trigger] strip_iter(t, n)) && c2 == clean_lines(
        strip_iter(t, n),
    );
    if n1 <= n2 {
        lemma_strip_iter_stable(t, n1, (n2 - n1) as nat);
    } else {
        lemma_strip_iter_stable(t, n2, (n1 - n2) as nat);
    }
}

/// Erasure passes until a pass changes nothing.
fn strip_repeated(pattern: &str, text: &str) -> (r: String)
    requires
        pattern@ == clean_pattern(),
    ensures
        exists|n: nat| strip_fixed(#[trigger] strip_iter(text@, n)) && r@ == strip_iter(text@, n),
{
    let mut cur = text.to_owned();
    proof {
        assert(cur@ == strip_iter(text@, 0));
    }
    loop
        invariant
            pattern@ == clean_pattern(),
            exists|n: nat| cur@ == #[trigger] strip_iter(text@, n),
        decreases cur@.len(),
    {
        let (next, changed) = strip_pass(pattern, cur.as_str());
        if !changed {
            proof {
                assert(strip_fixed(cur@));
            }
            return cur;
        }
        proof {
            let n = choose|n: nat| cur@ == #[trigger] strip_iter(text@, n);
            assert(next@ == strip_iter(text@, n + 1));
        }
        cur = next;
    }
}

/// Cleans one block's text: erasure to a fixpoint, then line-level tidying.
fn clean_text(pattern: &str, t: &str) -> (r: String)
    requires
        pattern@ == clean_pattern(),
    ensures
        cleans_to(t@, r@),
{
    let stripped = strip_repeated(pattern, t);
    join_trimmed_lines(stripped.as_str())
}

proof fn lemma_doc_cleans_push_vanish(before: Seq<BlockView>, after: Seq<BlockView>, b: BlockView)
    requires
        doc_cleans_to(before, after),
        block_vanishes(b),
    ensures
        doc_cleans_to(before.push(b), after),
    decreases before.len(),
{
    reveal_with_fuel(doc_cleans_to, 3);
    if before.len() == 0 {
        assert(before.push(b)[0] == b);
        assert(before.push(b).drop_first() =~= Seq::<BlockView>::empty());
    } else {
        assert(before.push(b)[0] == before[0]);
        assert(before.push(b).drop_first() =~= before.drop_first().push(b));
        if block_vanishes(before[0]) {
            lemma_doc_cleans_push_vanish(before.drop_first(), after, b);
        } else {
            lemma_doc_cleans_push_vanish(before.drop_first(), after.drop_first(), b);
        }
    }
}

proof fn lemma_doc_cleans_push_keep(
    before: Seq<BlockView>,
    after: Seq<BlockView>,
    b: BlockView,
    c: BlockView,
)
    requires
        doc_cleans_to(before, after),
        block_cleans_to(b, c),
    ensures
        doc_cleans_to(before.push(b), after.push(c)),
    decreases before.len(),
{
    reveal_with_fuel(doc_cleans_to, 3);
    if block_vanishes(b) {
        lemma_cleans_to_unique(b.text, c.text, Seq::empty());
    }
    if before.len() == 0 {
        assert(before.push(b)[0] == b);
        assert(before.push(b).drop_first() =~= Seq::<BlockView>::empty());
        assert(after.push(c)[0] == c);
        assert(after.push(c).drop_first() =~= Seq::<BlockView>::empty());
    } else {
        assert(before.push(b)[0] == before[0]);
        assert(before.push(b).drop_first() =~= before.drop_first().push(b));
        if block_vanishes(before[0]) {
            lemma_doc_cleans_push_keep(before.drop_first(), after, b, c);
        } else {
            assert(after.push(c)[0] == after[0]);
            assert(after.push(c).drop_first() =~= after.drop_first().push(c));
            lemma_doc_cleans_push_keep(before.drop_first(), after.drop_first(), b, c);
        }
    }
}

/// Cleaning is idempotent: cleaning a document a second time changes neither
/// the block count nor any block, on every document whose cleaned texts the
/// erasure pass leaves unchanged (line-trimming alone is always idempotent,
/// proved below; what the erasure pass makes of a trimmed text is known only
/// to the matching engine).
pub proof fn lemma_clean_idempotent(d0: Seq<BlockView>, d1: Seq<BlockView>, d2: Seq<BlockView>)
    requires
        doc_cleans_to(d0, d1),
        doc_cleans_to(d1, d2),
        forall|i: int| 0 <= i < d1.len() ==> strip_fixed(#[trigger] d1[i].text),
    ensures
        d2 == d1,
    decreases d0.len(),
{
    if d0.len() == 0 {
        assert(d2 =~= d1);
    } else if block_vanishes(d0[0]) {
        lemma_clean_idempotent(d0.drop_first(), d1, d2);
    } else {
        let t = d1[0].text;
        let n = choose|n: nat|
            strip_fixed(#[trigger] strip_iter(d0[0].text, n)) && t == clean_lines(
                strip_iter(d0[0].text, n),
            );
        crate::text::lemma_clean_lines_idempotent(strip_iter(d0[0].text, n));
        assert(clean_lines(t) == t);
        assert(strip_iter(t, 0) == t);
        assert(strip_fixed(d1[0].text));
        assert(cleans_to(t, t));
        if block_vanishes(d1[0]) {
            lemma_cleans_to_unique(t, t, Seq::empty());
            assert(false);
        }
        assert(d2.len() > 0 && block_cleans_to(d1[0], d2[0]));
        lemma_cleans_to_unique(t, t, d2[0].text);
        assert(d2[0] == d1[0]);
        assert forall|i: int| 0 <= i < d1.drop_first().len() implies strip_fixed(
            #[trigger] d1.drop_first()[i].text,
        ) by {
            assert(d1.drop_first()[i] == d1[i + 1]);
        }
        lemma_clean_idempotent(d0.drop_first(), d1.drop_first(), d2.drop_first());
        assert(d2.drop_first() == d1.drop_first());
        assert(d1.len() > 0);
        assert(d2.len() > 0);
        assert(d2.drop_first().len() == d2.len() - 1);
        assert(d1.drop_first().len() == d1.len() - 1);
        assert(d2.len() == d1.len());
        assert forall|k: int| 0 <= k < d2.len() implies #[trigger] d2[k] == d1[k] by {
            if k > 0 {
                assert(d2[k] == d2.drop_first()[k - 1]);
                assert(d1[k] == d1.drop_first()[k - 1]);
            }
        }
        assert(d2 =~= d1);
    }
}

/// A document cleans without loss when no block vanishes.
proof fn lemma_no_vanish_same_len(d0: Seq<BlockView>, d1: Seq<BlockView>)
    requires
        doc_cleans_to(d0, d1),
        forall|j: int| 0 <= j < d0.len() ==> !block_vanishes(#[trigger] d0[j]),
    ensures
        d1.len() == d0.len(),
    decreases d0.len(),
{
    if d0.len() > 0 {
        assert forall|j: int| 0 <= j < d0.drop_first().len() implies !block_vanishes(
            #[trigger] d0.drop_first()[j],
        ) by {
            assert(d0.drop_first()[j] == d0[j + 1]);
        }
        lemma_no_vanish_same_len(d0.drop_first(), d1.drop_first());
    }
}

/// A block whose text cleans to nothing vanishes from the document, and it
/// alone: when exactly one block vanishes, the block count drops by exactly
/// one.
pub proof fn lemma_vanishing_block_dropped(d0: Seq<BlockView>, d1: Seq<BlockView>, i: int)
    requires
        doc_cleans_to(d0, d1),
        0 <= i < d0.len(),
        block_vanishes(d0[i]),
        forall|j: int| 0 <= j < d0.len() && j != i ==> !block_vanishes(#[trigger] d0[j]),
    ensures
        d1.len() == d0.len() - 1,
    decreases d0.len(),
{
    if i == 0 {
        assert forall|j: int| 0 <= j < d0.drop_first().len() implies !block_vanishes(
            #[trigger] d0.drop_first()[j],
        ) by {
            assert(d0.drop_first()[j] == d0[j + 1]);
        }
        lemma_no_vanish_same_len(d0.drop_first(), d1);
    } else {
        assert(!block_vanishes(d0[0]));
        assert(d0.drop_first()[i - 1] == d0[i]);
        assert forall|j: int| 0 <= j < d0.drop_first().len() && j != i - 1 implies !block_vanishes(
            #[trigger] d0.drop_first()[j],
        ) by {
            assert(d0.drop_first()[j] == d0[j + 1]);
        }
        lemma_vanishing_block_dropped(d0.drop_first(), d1.drop_first(), i - 1);
    }
}

/// Cleans every block of the document in place: the pattern set is erased
/// from each text to a fixpoint, lines are trimmed and empty lines dropped,
/// and blocks whose text ends up empty are removed. Survivors keep their
/// times and their order.
pub fn clean_subtitle(sub: &mut Subtitle)
    ensures
        doc_cleans_to(old(sub)@, final(sub)@),
{
    let pattern = clean_pattern_str();
    let mut kept: Vec<SubBlock> = Vec::new();
    let n = sub.blocks.len();
    let mut i: usize = 0;
    proof {
        assert(old(sub)@.take(0) =~= Seq::<BlockView>::empty());
        assert(crate::srt::blocks_view(kept@) =~= Seq::<BlockView>::empty());
    }
    while i < n
        invariant
            pattern@ == clean_pattern(),
            i <= n,
            n == sub.blocks.len(),
            sub.blocks@ == old(sub).blocks@,
            doc_cleans_to(old(sub)@.take(i as int), crate::srt::blocks_view(kept@)),
        decreases n - i,
    {
        let cleaned = clean_text(pattern.as_str(), sub.blocks[i].text.as_str());
        proof {
            assert(old(sub)@[i as int] == sub.blocks@[i as int]@);
        }
        if cleaned.as_str().is_empty() {
            proof {
                assert(cleaned@ =~= Seq::<char>::empty());
                assert(block_vanishes(old(sub)@[i as int]));
                lemma_doc_cleans_push_vanish(
                    old(sub)@.take(i as int),
                    crate::srt::blocks_view(kept@),
                    old(sub)@[i as int],
                );
                assert(old(sub)@.take(i as int).push(old(sub)@[i as int]) =~= old(sub)@.take(
                    i as int + 1,
                ));
            }
        } else {
            let nb = SubBlock {
                start: sub.blocks[i].start,
                end: sub.blocks[i].end,
                text: cleaned,
            };
            let ghost old_kept = kept@;
            kept.push(nb);
            proof {
                assert(block_cleans_to(old(sub)@[i as int], nb@));
                lemma_doc_cleans_push_keep(
                    old(sub)@.take(i as int),
                    crate::srt::blocks_view(old_kept),
                    old(sub)@[i as int],
                    nb@,
                );
                assert(crate::srt::blocks_view(kept@) =~= crate::srt::blocks_view(
                    old_kept,
                ).push(nb@));
                assert(old(sub)@.take(i as int).push(old(sub)@[i as int]) =~= old(sub)@.take(
                    i as int + 1,
                ));
            }
        }
        i += 1;
    }
    proof {
        assert(old(sub)@.take(n as int) =~= old(sub)@);
    }
    sub.blocks = kept;
}

} // verus!
