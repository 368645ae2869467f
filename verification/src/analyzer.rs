//! The analyzer: a pure function from text to an ordered sequence of
//! normalized lexemes.
//!
//! Every character outside `A-Z`, `a-z`, `0-9` is replaced by a space, the
//! result is lowercased and split on spaces, empty tokens are dropped, tokens
//! shorter than a configured minimum length are dropped, and each surviving
//! token is optionally reduced to its English stem.
//!
//! The same configuration must be used for indexing document text and for
//! normalizing an incoming query string; both code paths go through
//! [`tokenize`], so both are described by the single spec function
//! [`lexemes_of`].

use vstd::prelude::*;

verus! {

/// Analyzer configuration: the minimum token length that is kept (0 keeps
/// every token), and whether surviving tokens are reduced to English stems.
#[derive(Clone, Copy, PartialEq, Eq, Structural)]
pub struct AnalyzerConfig {
    pub min_len: usize,
    pub stem: bool,
}

/// The decimal digits.
pub open spec fn is_digit_char(c: char) -> bool {
    48 <= c as u32 <= 57
}

/// The characters `A` through `Z`.
pub open spec fn is_upper_char(c: char) -> bool {
    65 <= c as u32 <= 90
}

/// The characters `a` through `z`.
pub open spec fn is_lower_char(c: char) -> bool {
    97 <= c as u32 <= 122
}

/// The characters that survive masking: ASCII letters and digits.
pub open spec fn is_word_char(c: char) -> bool {
    is_digit_char(c) || is_upper_char(c) || is_lower_char(c)
}

/// Masking keeps word characters and turns everything else into a space.
pub open spec fn masked_char(c: char) -> char {
    if is_word_char(c) {
        c
    } else {
        ' '
    }
}

/// A whole text, masked character by character.
pub open spec fn mask_text(s: Seq<char>) -> Seq<char> {
    s.map_values(|c: char| masked_char(c))
}

/// Lowercasing of a masked character: `A`-`Z` shift to `a`-`z`; digits,
/// lowercase letters and spaces are unchanged.
pub open spec fn lower_char(c: char) -> char {
    if is_upper_char(c) {
        ((c as u32) + 32) as char
    } else {
        c
    }
}

/// A text masked and lowercased: the alphabet of the analyzer's tokens.
pub open spec fn mask_lower(s: Seq<char>) -> Seq<char> {
    mask_text(s).map_values(|c: char| lower_char(c))
}

/// Relies on `regex`: the pattern `[^a-zA-Z0-9]` matches exactly one
/// character outside `A-Z`, `a-z`, `0-9`, and `Regex::replace_all` replaces
/// every non-overlapping match with the replacement string, here a single
/// space. The result is therefore the input mapped character by character
/// through [`masked_char`].
#[verifier::external_body]
fn mask_non_word(s: &str) -> (r: Vec<char>)
    ensures
        r@ == mask_text(s@),
{
    let re = regex::Regex::new("[^a-zA-Z0-9]").unwrap();
    re.replace_all(s, " ").chars().collect()
}

/// Lowercase one already-masked character.
fn lower_char_exec(c: char) -> (r: char)
    ensures
        r == lower_char(c),
{
    let u = c as u32;
    if 65 <= u && u <= 90 {
        ((c as u8) + 32) as char
    } else {
        c
    }
}

/// A pending token becomes a one-token sequence; an empty one is dropped.
pub open spec fn emit(cur: Seq<char>) -> Seq<Seq<char>> {
    if cur.len() > 0 {
        seq![cur]
    } else {
        Seq::empty()
    }
}

/// Splitting on spaces, from the front, with `cur` the token read so far.
pub open spec fn tokens_rec(s: Seq<char>, cur: Seq<char>) -> Seq<Seq<char>>
    decreases s.len(),
{
    if s.len() == 0 {
        emit(cur)
    } else if s[0] == ' ' {
        emit(cur) + tokens_rec(s.drop_first(), Seq::empty())
    } else {
        tokens_rec(s.drop_first(), cur.push(s[0]))
    }
}

/// The maximal runs of non-space characters of `s`, in order; empty tokens
/// do not appear.
pub open spec fn split_tokens(s: Seq<char>) -> Seq<Seq<char>> {
    tokens_rec(s, Seq::empty())
}

/// What the English Snowball stemmer returns for one token; a function of
/// the token alone.
pub uninterp spec fn stem_of(t: Seq<char>) -> Seq<char>;

/// The configured filters and the optional stemming, applied to a token
/// sequence.
pub open spec fn apply_config(ts: Seq<Seq<char>>, cfg: AnalyzerConfig) -> Seq<Seq<char>> {
    let kept = ts.filter(|t: Seq<char>| t.len() >= cfg.min_len);
    if cfg.stem {
        kept.map_values(|t: Seq<char>| stem_of(t))
    } else {
        kept
    }
}

/// The analyzer: the ordered lexeme sequence of a text under a
/// configuration. Used both for indexing document text and for normalizing
/// a query string.
pub open spec fn lexemes_of(text: Seq<char>, cfg: AnalyzerConfig) -> Seq<Seq<char>> {
    apply_config(split_tokens(mask_lower(text)), cfg)
}

/// The view of each vector in a sequence of vectors.
pub open spec fn views_of(v: Seq<Vec<char>>) -> Seq<Seq<char>> {
    v.map_values(|x: Vec<char>| x@)
}

/// Relies on `rust_stemmers`: `Stemmer::create(Algorithm::English)` selects
/// the fixed English Snowball algorithm, and `Stemmer::stem` computes a pure
/// function of its input string.
#[verifier::external_body]
fn stem_token(t: &Vec<char>) -> (r: Vec<char>)
    ensures
        r@ == stem_of(t@),
{
    let s: String = t.iter().collect();
    let stemmer = rust_stemmers::Stemmer::create(rust_stemmers::Algorithm::English);
    stemmer.stem(&s).chars().collect()
}

proof fn lemma_apply_config_add(a: Seq<Seq<char>>, b: Seq<Seq<char>>, cfg: AnalyzerConfig)
    ensures
        apply_config(a + b, cfg) == apply_config(a, cfg) + apply_config(b, cfg),
{
    let pred = |t: Seq<char>| t.len() >= cfg.min_len;
    Seq::filter_distributes_over_add(a, b, pred);
    if cfg.stem {
        let f = |t: Seq<char>| stem_of(t);
        assert((a.filter(pred) + b.filter(pred)).map_values(f) =~= a.filter(pred).map_values(f)
            + b.filter(pred).map_values(f));
    }
}

/// Close the pending token: keep it if it is non-empty and long enough,
/// stemming it when the configuration asks for that.
fn flush(out: &mut Vec<Vec<char>>, cur: Vec<char>, cfg: &AnalyzerConfig)
    ensures
        views_of(final(out)@) == views_of(old(out)@) + apply_config(emit(cur@), *cfg),
{
    proof {
        reveal_with_fuel(Seq::<_>::filter, 2);
    }
    if cur.len() > 0 && cur.len() >= cfg.min_len {
        let ghost pre = out@;
        proof {
            assert(emit(cur@) =~= seq![cur@]);
            assert(emit(cur@).filter(|t: Seq<char>| t.len() >= cfg.min_len) =~= seq![cur@]);
            if cfg.stem {
                assert(seq![cur@].map_values(|t: Seq<char>| stem_of(t)) =~= seq![stem_of(cur@)]);
            }
        }
        if cfg.stem {
            let stemmed = stem_token(&cur);
            out.push(stemmed);
        } else {
            out.push(cur);
        }
        proof {
            assert(views_of(out@) =~= views_of(pre) + apply_config(emit(cur@), *cfg));
        }
    } else {
        proof {
            if cur@.len() == 0 {
                assert(emit(cur@) =~= Seq::<Seq<char>>::empty());
            }
            assert(emit(cur@).filter(|t: Seq<char>| t.len() >= cfg.min_len) =~= Seq::<
                Seq<char>,
            >::empty());
            assert(apply_config(emit(cur@), *cfg) =~= Seq::<Seq<char>>::empty());
            assert(views_of(out@) =~= views_of(out@) + apply_config(emit(cur@), *cfg));
        }
    }
}

/// The lexemes of `text` under `cfg`, as executable vectors.
///
/// This is the single code path through which both document text (at ingest
/// and update time) and query strings (at search time) are normalized.
pub fn tokenize(text: &str, cfg: &AnalyzerConfig) -> (r: Vec<Vec<char>>)
    ensures
        views_of(r@) == lexemes_of(text@, *cfg),
{
    let masked = mask_non_word(text);
    let ghost ml = mask_lower(text@);
    let mut out: Vec<Vec<char>> = Vec::new();
    let mut cur: Vec<char> = Vec::new();
    let mut i: usize = 0;
    proof {
        assert(ml == masked@.map_values(|c: char| lower_char(c)));
        assert(ml.skip(0) == ml);
    }
    while i < masked.len()
        invariant
            masked@ == mask_text(text@),
            ml == mask_lower(text@),
            ml.len() == masked@.len(),
            i <= masked.len(),
            views_of(out@) + apply_config(tokens_rec(ml.skip(i as int), cur@), *cfg) == lexemes_of(
                text@,
                *cfg,
            ),
        decreases masked.len() - i,
    {
        let c = masked[i];
        let ghost rest = ml.skip(i as int);
        proof {
            assert(ml[i as int] == lower_char(masked@[i as int]));
            assert(rest[0] == ml[i as int]);
            assert(rest.drop_first() =~= ml.skip(i as int + 1));
        }
        if c == ' ' {
            let ghost out_pre = out@;
            let ghost cur_pre = cur@;
            proof {
                assert(lower_char(c) == ' ');
                assert(tokens_rec(rest, cur@) == emit(cur@) + tokens_rec(
                    rest.drop_first(),
                    Seq::empty(),
                ));
                lemma_apply_config_add(
                    emit(cur@),
                    tokens_rec(rest.drop_first(), Seq::empty()),
                    *cfg,
                );
            }
            flush(&mut out, cur, cfg);
            cur = Vec::new();
            proof {
                assert(views_of(out@) + apply_config(
                    tokens_rec(ml.skip(i as int + 1), cur@),
                    *cfg,
                ) =~= views_of(out_pre) + apply_config(tokens_rec(rest, cur_pre), *cfg));
            }
        } else {
            let lc = lower_char_exec(c);
            proof {
                assert(masked@[i as int] == masked_char(text@[i as int]));
                assert(is_word_char(c));
                assert(lower_char(c) != ' ');
                assert(tokens_rec(rest, cur@) == tokens_rec(rest.drop_first(), cur@.push(rest[0])));
            }
            cur.push(lc);
        }
        i = i + 1;
    }
    proof {
        assert(ml.skip(i as int) =~= Seq::<char>::empty());
        assert(tokens_rec(ml.skip(i as int), cur@) == emit(cur@));
    }
    let ghost out_pre = out@;
    let ghost cur_pre = cur@;
    flush(&mut out, cur, cfg);
    proof {
        assert(views_of(out@) =~= views_of(out_pre) + apply_config(emit(cur_pre), *cfg));
        assert(views_of(out@) =~= lexemes_of(text@, *cfg));
    }
    out
}

} // verus!
