use vstd::prelude::*;
use vstd::string::StrSliceExecFns;
use vstd::string::StringExecFns;

verus! {

/// Horizontal whitespace: the two characters the default normalizer
/// collapses.
pub open spec fn is_hws(c: char) -> bool {
    c == ' ' || c == '\t'
}

/// Collapses runs of horizontal whitespace, keeping the first character of
/// each run; `prev` is the character just before the sequence (at the very
/// start a non-whitespace sentinel, so a leading run keeps its first
/// character like any other).
pub open spec fn collapse_from(prev: char, s: Seq<char>) -> Seq<char>
    decreases s.len(),
{
    if s.len() == 0 {
        seq![]
    } else {
        (if is_hws(s[0]) && is_hws(prev) {
            seq![]
        } else {
            seq![s[0]]
        }) + collapse_from(s[0], s.drop_first())
    }
}

/// The default text normalization: every maximal run of consecutive spaces
/// and tabs keeps only its first character.
pub open spec fn collapse_ws(s: Seq<char>) -> Seq<char> {
    collapse_from('\u{0}', s)
}

/// The pluggable text-preprocessing capability: a pure, stateless
/// transformation applied before a text is handed to the engine.  The
/// engine never inspects the concrete normalizer; it only relies on this
/// contract.
pub trait Normalize: Sized {
    /// What the normalizer does to a character sequence.
    spec fn norm_spec(&self, s: Seq<char>) -> Seq<char>;

    /// Applies the transformation.
    fn normalize(&self, text: &str) -> (r: String)
        ensures
            r@ == self.norm_spec(text@),
    ;
}

/// The default normalizer: collapses consecutive horizontal whitespace.
pub struct DefaultNormalizer {}

impl DefaultNormalizer {
    /// Whether `c` counts as horizontal whitespace.
    pub fn is_whitespace(&self, c: char) -> (b: bool)
        ensures
            b == is_hws(c),
    {
        c == ' ' || c == '\t'
    }
}

impl Normalize for DefaultNormalizer {
    open spec fn norm_spec(&self, s: Seq<char>) -> Seq<char> {
        collapse_ws(s)
    }

    fn normalize(&self, text: &str) -> (r: String) {
        let n = text.unicode_len();
        let mut out = String::new();
        let mut prev: char = '\u{0}';
        let mut i: usize = 0;
        proof {
            assert(text@.skip(0) =~= text@);
            assert(out@ + collapse_from('\u{0}', text@) =~= collapse_from('\u{0}', text@));
        }
        while i < n
            invariant
                n == text@.len(),
                0 <= i <= n,
                collapse_ws(text@) == out@ + collapse_from(prev, text@.skip(i as int)),
            decreases n - i,
        {
            let c = text.get_char(i);
            proof {
                let suf = text@.skip(i as int);
                assert(suf.len() > 0);
                assert(suf[0] == c);
                assert(suf.drop_first() =~= text@.skip(i + 1));
            }
            if !(self.is_whitespace(c) && self.is_whitespace(prev)) {
                let piece = text.substring_char(i, i + 1);
                proof {
                    assert(piece@ =~= seq![c]);
                }
                out.append(piece);
                proof {
                    let suf = text@.skip(i as int);
                    assert(collapse_from(prev, suf) == seq![c] + collapse_from(
                        c,
                        text@.skip(i + 1),
                    ));
                    assert(out@.drop_last() + (seq![c] + collapse_from(c, text@.skip(i + 1)))
                        =~= out@ + collapse_from(c, text@.skip(i + 1)));
                }
            } else {
                proof {
                    let suf = text@.skip(i as int);
                    assert(collapse_from(prev, suf) == seq![] + collapse_from(
                        c,
                        text@.skip(i + 1),
                    ));
                    assert(seq![] + collapse_from(c, text@.skip(i + 1)) =~= collapse_from(
                        c,
                        text@.skip(i + 1),
                    ));
                }
            }
            prev = c;
            i += 1;
        }
        proof {
            assert(text@.skip(n as int) =~= Seq::<char>::empty());
            assert(out@ + Seq::<char>::empty() =~= out@);
        }
        out
    }
}

} // verus!
