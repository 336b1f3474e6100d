//! The supported schemes and the spans they cut text into.
use crate::pretokenize::cl100k_family::{family_token_end, lemma_family_token_end, Cl100kRules};
use crate::pretokenize::o200k_family::{lemma_o200k_token_end, o200k_token_end, O200kRules};
use crate::pretokenize::r50k::{lemma_r50k_token_end, r50k_token_end};
use crate::pretokenize::{cl100k_family, o200k_family, r50k};
use crate::text::{text_equal, text_views};
use vstd::prelude::*;

verus! {

/// A pretokenization scheme.
#[derive(Clone, Copy, Debug, PartialEq, Eq, Structural)]
pub enum PretokenizerType {
    GPT2,
    GPT4,
    Qwen2,
    Qwen35,
    Olmo3,
    O200k,
    Nemotron,
    Kimi,
}

/// The pattern family of a scheme with the switches it sets.
#[derive(Clone, Copy, Debug, PartialEq, Eq, Structural)]
pub enum SchemeRules {
    R50k,
    Cl100k(Cl100kRules),
    O200k(O200kRules),
}

/// The rules of each scheme.
pub open spec fn scheme_rules(t: PretokenizerType) -> SchemeRules {
    match t {
        PretokenizerType::GPT2 => SchemeRules::R50k,
        PretokenizerType::GPT4 => SchemeRules::Cl100k(
            Cl100kRules { digits3: true, eos_ws_whole: true, marks_join: false },
        ),
        PretokenizerType::Qwen2 => SchemeRules::Cl100k(
            Cl100kRules { digits3: false, eos_ws_whole: false, marks_join: false },
        ),
        PretokenizerType::Qwen35 => SchemeRules::Cl100k(
            Cl100kRules { digits3: false, eos_ws_whole: false, marks_join: true },
        ),
        PretokenizerType::Olmo3 => SchemeRules::Cl100k(
            Cl100kRules { digits3: true, eos_ws_whole: false, marks_join: false },
        ),
        PretokenizerType::O200k => SchemeRules::O200k(
            O200kRules { contractions: true, digits3: true, slash: true, han: false },
        ),
        PretokenizerType::Nemotron => SchemeRules::O200k(
            O200kRules { contractions: false, digits3: false, slash: true, han: false },
        ),
        PretokenizerType::Kimi => SchemeRules::O200k(
            O200kRules { contractions: true, digits3: true, slash: false, han: true },
        ),
    }
}

/// The end of the token that starts at `p`.
pub open spec fn token_end(t: PretokenizerType, s: Seq<u8>, p: int) -> int {
    match scheme_rules(t) {
        SchemeRules::R50k => r50k_token_end(s, p),
        SchemeRules::Cl100k(r) => family_token_end(s, p, r),
        SchemeRules::O200k(r) => o200k_token_end(s, p, r),
    }
}

/// A token makes progress and stays within the input.
pub proof fn lemma_token_end(t: PretokenizerType, s: Seq<u8>, p: int)
    requires
        0 <= p < s.len(),
    ensures
        p < token_end(t, s, p) <= s.len(),
{
    match scheme_rules(t) {
        SchemeRules::R50k => lemma_r50k_token_end(s, p),
        SchemeRules::Cl100k(r) => lemma_family_token_end(s, p, r),
        SchemeRules::O200k(r) => lemma_o200k_token_end(s, p, r),
    }
}

/// The spans of the tokens from `p` to the end of the input.
pub open spec fn spans_from(t: PretokenizerType, s: Seq<u8>, p: int) -> Seq<(int, int)>
    decreases s.len() - p,
{
    if 0 <= p < s.len() {
        proof {
            lemma_token_end(t, s, p);
        }
        seq![(p, token_end(t, s, p))] + spans_from(t, s, token_end(t, s, p))
    } else {
        Seq::empty()
    }
}

/// The spans cover the input from `p` on: each is non-empty, each starts where
/// the one before it ended, the first starts at `p` and the last ends the
/// input.
pub proof fn law_spans_partition(t: PretokenizerType, s: Seq<u8>, p: int)
    requires
        0 <= p <= s.len(),
    ensures
        ({
            let v = spans_from(t, s, p);
            &&& v.len() == 0 <==> p == s.len()
            &&& v.len() > 0 ==> v[0].0 == p && v.last().1 == s.len()
            &&& forall|i: int| 0 <= i < v.len() ==> p <= (#[trigger] v[i]).0 < v[i].1 <= s.len()
            &&& forall|i: int| 0 <= i < v.len() - 1 ==> (#[trigger] v[i]).1 == v[i + 1].0
        }),
    decreases s.len() - p,
{
    if p < s.len() {
        lemma_token_end(t, s, p);
        let e = token_end(t, s, p);
        law_spans_partition(t, s, e);
        let rest = spans_from(t, s, e);
        let v = spans_from(t, s, p);
        assert(v =~= seq![(p, e)] + rest);
        assert forall|i: int| 0 <= i < v.len() - 1 implies (#[trigger] v[i]).1 == v[i + 1].0 by {
            if i > 0 {
                assert(rest[i - 1].1 == rest[i].0);
            }
        }
        assert forall|i: int| 0 <= i < v.len() implies p <= (#[trigger] v[i]).0 < v[i].1
            <= s.len() by {
            if i > 0 {
                assert(e <= rest[i - 1].0);
            }
        }
        if rest.len() > 0 {
            assert(v.last() == rest.last());
        }
    }
}

/// The end of the token that starts at `pos`.
pub fn advance(t: PretokenizerType, bytes: &[u8], pos: usize) -> (e: usize)
    requires
        pos < bytes@.len(),
    ensures
        e == token_end(t, bytes@, pos as int),
        pos < e <= bytes@.len(),
{
    match t.rules() {
        SchemeRules::R50k => r50k::advance_pos(bytes, pos),
        SchemeRules::Cl100k(r) => cl100k_family::advance_pos(bytes, pos, r),
        SchemeRules::O200k(r) => o200k_family::advance_pos(bytes, pos, r),
    }
}

/// Machine spans as mathematical spans.
pub open spec fn as_spans(v: Seq<(usize, usize)>) -> Seq<(int, int)> {
    Seq::new(v.len(), |i: int| (v[i].0 as int, v[i].1 as int))
}

impl PretokenizerType {
    /// The pattern family of the scheme with the switches it sets.
    pub fn rules(self) -> (r: SchemeRules)
        ensures
            r == scheme_rules(self),
    {
        match self {
            PretokenizerType::GPT2 => SchemeRules::R50k,
            PretokenizerType::GPT4 => SchemeRules::Cl100k(
                Cl100kRules { digits3: true, eos_ws_whole: true, marks_join: false },
            ),
            PretokenizerType::Qwen2 => SchemeRules::Cl100k(
                Cl100kRules { digits3: false, eos_ws_whole: false, marks_join: false },
            ),
            PretokenizerType::Qwen35 => SchemeRules::Cl100k(
                Cl100kRules { digits3: false, eos_ws_whole: false, marks_join: true },
            ),
            PretokenizerType::Olmo3 => SchemeRules::Cl100k(
                Cl100kRules { digits3: true, eos_ws_whole: false, marks_join: false },
            ),
            PretokenizerType::O200k => SchemeRules::O200k(
                O200kRules { contractions: true, digits3: true, slash: true, han: false },
            ),
            PretokenizerType::Nemotron => SchemeRules::O200k(
                O200kRules { contractions: false, digits3: false, slash: true, han: false },
            ),
            PretokenizerType::Kimi => SchemeRules::O200k(
                O200kRules { contractions: true, digits3: true, slash: false, han: true },
            ),
        }
    }

    /// The spans of the pretokens of `bytes`, in order.
    pub fn pretokenize(self, bytes: &[u8]) -> (spans: Vec<(usize, usize)>)
        ensures
            as_spans(spans@) == spans_from(self, bytes@, 0),
    {
        let mut spans: Vec<(usize, usize)> = Vec::new();
        let mut pos: usize = 0;
        while pos < bytes.len()
            invariant
                pos <= bytes@.len(),
                as_spans(spans@) + spans_from(self, bytes@, pos as int) == spans_from(
                    self,
                    bytes@,
                    0,
                ),
            decreases bytes@.len() - pos,
        {
            let end: usize = advance(self, bytes, pos);
            let ghost before = spans@;
            spans.push((pos, end));
            proof {
                let rest = spans_from(self, bytes@, end as int);
                assert(as_spans(spans@) + rest =~= as_spans(before) + (seq![
                    (pos as int, end as int),
                ] + rest));
            }
            pos = end;
        }
        proof {
            assert(as_spans(spans@) + spans_from(self, bytes@, pos as int) =~= as_spans(spans@));
        }
        spans
    }
}

/// The spans of the GPT-2 pretokens of `bytes`.
pub fn pretokenize_as_iter(bytes: &[u8]) -> (spans: Vec<(usize, usize)>)
    ensures
        as_spans(spans@) == spans_from(PretokenizerType::GPT2, bytes@, 0),
{
    PretokenizerType::GPT2.pretokenize(bytes)
}

/// The scheme whose pattern a text is.
pub open spec fn regex_scheme(re: Seq<char>) -> Option<PretokenizerType> {
    if re == r"'(?:[sdmt]|ll|ve|re)| ?\p{L}+| ?\p{N}+| ?[^\s\p{L}\p{N}]+|\s+(?!\S)|\s+"@ {
        Some(PretokenizerType::GPT2)
    } else if re == r"'(?i:[sdmt]|ll|ve|re)|[^\r\n\p{L}\p{N}]?+\p{L}++|\p{N}{1,3}+| ?[^\s\p{L}\p{N}]++[\r\n]*+|\s++$|\s*[\r\n]|\s+(?!\S)|\s+"@ {
        Some(PretokenizerType::GPT4)
    } else if re == r"'(?i:[sdmt]|ll|ve|re)|[^\r\n\p{L}\p{N}]?\p{L}+|\p{N}{1,3}| ?[^\s\p{L}\p{N}]+[\r\n]*|\s+$|\s*[\r\n]|\s+(?!\S)|\s+"@ {
        Some(PretokenizerType::GPT4)
    } else if re == r"(?i:'s|'t|'re|'ve|'m|'ll|'d)|[^\r\n\p{L}\p{N}]?\p{L}+|\p{N}| ?[^\s\p{L}\p{N}]+[\r\n]*|\s*[\r\n]+|\s+(?!\S)|\s+"@ {
        Some(PretokenizerType::Qwen2)
    } else if re == r"(?i:'s|'t|'re|'ve|'m|'ll|'d)|[^\r\n\p{L}\p{N}]?[\p{L}\p{M}]+|\p{N}| ?[^\s\p{L}\p{M}\p{N}]+[\r\n]*|\s*[\r\n]+|\s+(?!\S)|\s+"@ {
        Some(PretokenizerType::Qwen35)
    } else if re == r"(?i:'s|'t|'re|'ve|'m|'ll|'d)|[^\r\n\p{L}\p{N}]?\p{L}+|\p{N}{1,3}| ?[^\s\p{L}\p{N}]+[\r\n]*|\s*[\r\n]+|\s+(?!\S)|\s+"@ {
        Some(PretokenizerType::Olmo3)
    } else if re == r"[^\r\n\p{L}\p{N}]?[\p{Lu}\p{Lt}\p{Lm}\p{Lo}\p{M}]*[\p{Ll}\p{Lm}\p{Lo}\p{M}]+(?i:'s|'t|'re|'ve|'m|'ll|'d)?|[^\r\n\p{L}\p{N}]?[\p{Lu}\p{Lt}\p{Lm}\p{Lo}\p{M}]+[\p{Ll}\p{Lm}\p{Lo}\p{M}]*(?i:'s|'t|'re|'ve|'m|'ll|'d)?|\p{N}{1,3}| ?[^\s\p{L}\p{N}]+[\r\n/]*|\s*[\r\n]+|\s+(?!\S)|\s+"@ {
        Some(PretokenizerType::O200k)
    } else if re == r"[^\r\n\p{L}\p{N}]?[\p{Lu}\p{Lt}\p{Lm}\p{Lo}\p{M}]*[\p{Ll}\p{Lm}\p{Lo}\p{M}]+|[^\r\n\p{L}\p{N}]?[\p{Lu}\p{Lt}\p{Lm}\p{Lo}\p{M}]+[\p{Ll}\p{Lm}\p{Lo}\p{M}]*|\p{N}| ?[^\s\p{L}\p{N}]+[\r\n/]*|\s*[\r\n]+|\s+(?!\S)|\s+"@ {
        Some(PretokenizerType::Nemotron)
    } else if re == r"[\p{Han}]+|[^\r\n\p{L}\p{N}]?[\p{Lu}\p{Lt}\p{Lm}\p{Lo}\p{M}&&[^\p{Han}]]*[\p{Ll}\p{Lm}\p{Lo}\p{M}&&[^\p{Han}]]+(?i:'s|'t|'re|'ve|'m|'ll|'d)?|[^\r\n\p{L}\p{N}]?[\p{Lu}\p{Lt}\p{Lm}\p{Lo}\p{M}&&[^\p{Han}]]+[\p{Ll}\p{Lm}\p{Lo}\p{M}&&[^\p{Han}]]*(?i:'s|'t|'re|'ve|'m|'ll|'d)?|\p{N}{1,3}| ?[^\s\p{L}\p{N}]+[\r\n]*|\s*[\r\n]+|\s+(?!\S)|\s+"@ {
        Some(PretokenizerType::Kimi)
    } else {
        None
    }
}

/// The scheme that a list of split patterns makes.
pub open spec fn split_scheme(regexes: Seq<Seq<char>>) -> Option<PretokenizerType> {
    if regexes.len() == 1 {
        regex_scheme(regexes[0])
    } else {
        None
    }
}

impl PretokenizerType {
    /// The scheme whose split patterns these are, in order.
    pub fn from_split_regexes(regexes: &Vec<String>) -> (r: Option<PretokenizerType>)
        ensures
            r == split_scheme(text_views(regexes@)),
    {
        if regexes.len() != 1 {
            return None;
        }
        let re = regexes[0].as_str();
        if text_equal(
            re,
            r"'(?:[sdmt]|ll|ve|re)| ?\p{L}+| ?\p{N}+| ?[^\s\p{L}\p{N}]+|\s+(?!\S)|\s+",
        ) {
            Some(PretokenizerType::GPT2)
        } else if text_equal(
            re,
            r"'(?i:[sdmt]|ll|ve|re)|[^\r\n\p{L}\p{N}]?+\p{L}++|\p{N}{1,3}+| ?[^\s\p{L}\p{N}]++[\r\n]*+|\s++$|\s*[\r\n]|\s+(?!\S)|\s+",
        ) {
            Some(PretokenizerType::GPT4)
        } else if text_equal(
            re,
            r"'(?i:[sdmt]|ll|ve|re)|[^\r\n\p{L}\p{N}]?\p{L}+|\p{N}{1,3}| ?[^\s\p{L}\p{N}]+[\r\n]*|\s+$|\s*[\r\n]|\s+(?!\S)|\s+",
        ) {
            Some(PretokenizerType::GPT4)
        } else if text_equal(
            re,
            r"(?i:'s|'t|'re|'ve|'m|'ll|'d)|[^\r\n\p{L}\p{N}]?\p{L}+|\p{N}| ?[^\s\p{L}\p{N}]+[\r\n]*|\s*[\r\n]+|\s+(?!\S)|\s+",
        ) {
            Some(PretokenizerType::Qwen2)
        } else if text_equal(
            re,
            r"(?i:'s|'t|'re|'ve|'m|'ll|'d)|[^\r\n\p{L}\p{N}]?[\p{L}\p{M}]+|\p{N}| ?[^\s\p{L}\p{M}\p{N}]+[\r\n]*|\s*[\r\n]+|\s+(?!\S)|\s+",
        ) {
            Some(PretokenizerType::Qwen35)
        } else if text_equal(
            re,
            r"(?i:'s|'t|'re|'ve|'m|'ll|'d)|[^\r\n\p{L}\p{N}]?\p{L}+|\p{N}{1,3}| ?[^\s\p{L}\p{N}]+[\r\n]*|\s*[\r\n]+|\s+(?!\S)|\s+",
        ) {
            Some(PretokenizerType::Olmo3)
        } else if text_equal(
            re,
            r"[^\r\n\p{L}\p{N}]?[\p{Lu}\p{Lt}\p{Lm}\p{Lo}\p{M}]*[\p{Ll}\p{Lm}\p{Lo}\p{M}]+(?i:'s|'t|'re|'ve|'m|'ll|'d)?|[^\r\n\p{L}\p{N}]?[\p{Lu}\p{Lt}\p{Lm}\p{Lo}\p{M}]+[\p{Ll}\p{Lm}\p{Lo}\p{M}]*(?i:'s|'t|'re|'ve|'m|'ll|'d)?|\p{N}{1,3}| ?[^\s\p{L}\p{N}]+[\r\n/]*|\s*[\r\n]+|\s+(?!\S)|\s+",
        ) {
            Some(PretokenizerType::O200k)
        } else if text_equal(
            re,
            r"[^\r\n\p{L}\p{N}]?[\p{Lu}\p{Lt}\p{Lm}\p{Lo}\p{M}]*[\p{Ll}\p{Lm}\p{Lo}\p{M}]+|[^\r\n\p{L}\p{N}]?[\p{Lu}\p{Lt}\p{Lm}\p{Lo}\p{M}]+[\p{Ll}\p{Lm}\p{Lo}\p{M}]*|\p{N}| ?[^\s\p{L}\p{N}]+[\r\n/]*|\s*[\r\n]+|\s+(?!\S)|\s+",
        ) {
            Some(PretokenizerType::Nemotron)
        } else if text_equal(
            re,
            r"[\p{Han}]+|[^\r\n\p{L}\p{N}]?[\p{Lu}\p{Lt}\p{Lm}\p{Lo}\p{M}&&[^\p{Han}]]*[\p{Ll}\p{Lm}\p{Lo}\p{M}&&[^\p{Han}]]+(?i:'s|'t|'re|'ve|'m|'ll|'d)?|[^\r\n\p{L}\p{N}]?[\p{Lu}\p{Lt}\p{Lm}\p{Lo}\p{M}&&[^\p{Han}]]+[\p{Ll}\p{Lm}\p{Lo}\p{M}&&[^\p{Han}]]*(?i:'s|'t|'re|'ve|'m|'ll|'d)?|\p{N}{1,3}| ?[^\s\p{L}\p{N}]+[\r\n]*|\s*[\r\n]+|\s+(?!\S)|\s+",
        ) {
            Some(PretokenizerType::Kimi)
        } else {
            None
        }
    }
}

} // verus!
