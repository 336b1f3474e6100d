//! The pretokenization patterns as patterns: what each of them matches, with
//! the alternatives in order and the longest repetition tried first.
use crate::pretokenize::chars::{char_cp, char_end};
use crate::pretokenize::scheme::PretokenizerType;
use crate::pretokenize::unicode::{general_category, script, white_space};
use vstd::prelude::*;

verus! {

/// A set of characters: whether the character at a position is in it.
pub type CharSet = spec_fn(Seq<u8>, int) -> bool;

/// A pattern: where its matches from a position end, the preferred one first.
pub type Pattern = spec_fn(Seq<u8>, int) -> Seq<int>;

/// One character of a set.
pub open spec fn one(t: CharSet) -> Pattern {
    |s: Seq<u8>, p: int|
        if 0 <= p < s.len() && t(s, p) {
            seq![char_end(s, p)]
        } else {
            Seq::empty()
        }
}

/// The ends of runs of characters of a set, the longest first.
pub open spec fn run_ends(t: CharSet, s: Seq<u8>, p: int) -> Seq<int>
    decreases s.len() - p,
{
    if 0 <= p < s.len() && t(s, p) {
        run_ends(t, s, char_end(s, p)) + seq![p]
    } else {
        seq![p]
    }
}

/// The ends of runs of at most `n` characters of a set, the longest first.
pub open spec fn short_run_ends(t: CharSet, s: Seq<u8>, p: int, n: nat) -> Seq<int>
    decreases n,
{
    if n > 0 && 0 <= p < s.len() && t(s, p) {
        short_run_ends(t, s, char_end(s, p), (n - 1) as nat) + seq![p]
    } else {
        seq![p]
    }
}

/// `X*`
pub open spec fn star(t: CharSet) -> Pattern {
    |s: Seq<u8>, p: int| run_ends(t, s, p)
}

/// The ends of a pattern from each of some positions in turn.
pub open spec fn each(v: Seq<int>, s: Seq<u8>, b: Pattern) -> Seq<int>
    decreases v.len(),
{
    if v.len() == 0 {
        Seq::empty()
    } else {
        each(v.drop_last(), s, b) + b(s, v.last())
    }
}

/// `XY`
pub open spec fn cat(a: Pattern, b: Pattern) -> Pattern {
    |s: Seq<u8>, p: int| each(a(s, p), s, b)
}

/// `X|Y`
pub open spec fn alt(a: Pattern, b: Pattern) -> Pattern {
    |s: Seq<u8>, p: int| a(s, p) + b(s, p)
}

/// `X?`
pub open spec fn opt(a: Pattern) -> Pattern {
    |s: Seq<u8>, p: int| a(s, p) + seq![p]
}

/// `X+`
pub open spec fn plus(t: CharSet) -> Pattern {
    cat(one(t), star(t))
}

/// `X{1,n}`
pub open spec fn up_to(t: CharSet, n: nat) -> Pattern {
    cat(one(t), |s: Seq<u8>, p: int| short_run_ends(t, s, p, (n - 1) as nat))
}

/// `$`
pub open spec fn at_end() -> Pattern {
    |s: Seq<u8>, p: int|
        if p >= s.len() {
            seq![p]
        } else {
            Seq::empty()
        }
}

/// `(?!X)` for the characters that are not in a set.
pub open spec fn no_other_than(t: CharSet) -> Pattern {
    |s: Seq<u8>, p: int|
        if p >= s.len() || (0 <= p && t(s, p)) {
            seq![p]
        } else {
            Seq::empty()
        }
}

/// `\p{L}`: the categories `Lu`, `Ll`, `Lt`, `Lm` and `Lo`.
pub open spec fn letter_at(s: Seq<u8>, p: int) -> bool {
    if s[p] < 0x80 {
        'a' as u8 <= s[p] <= 'z' as u8 || 'A' as u8 <= s[p] <= 'Z' as u8
    } else {
        let gc = general_category(char_cp(s, p));
        gc == 1 || gc == 2 || gc == 3 || gc == 4 || gc == 5
    }
}

/// `\p{M}`: the categories `Mn`, `Me` and `Mc`.
pub open spec fn mark_at(s: Seq<u8>, p: int) -> bool {
    s[p] >= 0x80 && {
        let gc = general_category(char_cp(s, p));
        gc == 6 || gc == 7 || gc == 8
    }
}

/// `\p{N}`: the categories `Nd`, `Nl` and `No`.
pub open spec fn number_at(s: Seq<u8>, p: int) -> bool {
    if s[p] < 0x80 {
        '0' as u8 <= s[p] <= '9' as u8
    } else {
        let gc = general_category(char_cp(s, p));
        gc == 9 || gc == 10 || gc == 11
    }
}

/// `[\p{L}\p{M}]`, or `\p{L}` without `marks`.
pub open spec fn letters(marks: bool) -> CharSet {
    |s: Seq<u8>, p: int| letter_at(s, p) || (marks && mark_at(s, p))
}

/// `\p{N}`
pub open spec fn numbers() -> CharSet {
    |s: Seq<u8>, p: int| number_at(s, p)
}

/// `\s`, for characters that are in none of the other sets.
pub open spec fn blanks(marks: bool) -> CharSet {
    |s: Seq<u8>, p: int|
        if s[p] < 0x80 {
            s[p] == ' ' as u8 || '\t' as u8 <= s[p] <= '\r' as u8
        } else {
            white_space(char_cp(s, p)) && !letter_at(s, p) && !number_at(s, p) && !(marks
                && mark_at(s, p))
        }
}

/// `[^\s\p{L}\p{M}\p{N}]`, or `[^\s\p{L}\p{N}]` without `marks`.
pub open spec fn others(marks: bool) -> CharSet {
    |s: Seq<u8>, p: int|
        !letters(marks)(s, p) && !number_at(s, p) && !blanks(marks)(s, p)
}

/// `[^\r\n\p{L}\p{N}]`
pub open spec fn prefixes() -> CharSet {
    |s: Seq<u8>, p: int|
        s[p] != '\r' as u8 && s[p] != '\n' as u8 && !letter_at(s, p) && !number_at(s, p)
}

/// `[\r\n]`
pub open spec fn line_ends() -> CharSet {
    |s: Seq<u8>, p: int| s[p] == '\r' as u8 || s[p] == '\n' as u8
}

/// `[\r\n/]`
pub open spec fn line_ends_or_slash() -> CharSet {
    |s: Seq<u8>, p: int| s[p] == '\r' as u8 || s[p] == '\n' as u8 || s[p] == '/' as u8
}

/// One ASCII character.
pub open spec fn ch(c: char) -> CharSet {
    |s: Seq<u8>, p: int| s[p] == c as u8
}

/// One ASCII letter, given in lower case, in either case. U+017F is an `s`.
pub open spec fn any_case(c: char) -> CharSet {
    |s: Seq<u8>, p: int|
        s[p] == c as u8 || s[p] == c as u8 - 32 || (c == 's' && p + 1 < s.len() && s[p] == 0xC5
            && s[p + 1] == 0xBF)
}

/// One of four ASCII letters in either case.
pub open spec fn any_of_any_case(a: char, b: char, c: char, d: char) -> CharSet {
    |s: Seq<u8>, p: int|
        any_case(a)(s, p) || any_case(b)(s, p) || any_case(c)(s, p) || any_case(d)(s, p)
}

/// One of four ASCII characters.
pub open spec fn any_of(a: char, b: char, c: char, d: char) -> CharSet {
    |s: Seq<u8>, p: int|
        s[p] == a as u8 || s[p] == b as u8 || s[p] == c as u8 || s[p] == d as u8
}

/// `[\p{Lu}\p{Lt}\p{Lm}\p{Lo}\p{M}]`, without Han characters with `no_han`.
pub open spec fn uppers(no_han: bool) -> CharSet {
    |s: Seq<u8>, p: int|
        if s[p] < 0x80 {
            'A' as u8 <= s[p] <= 'Z' as u8
        } else {
            let gc = general_category(char_cp(s, p));
            (gc == 1 || gc == 3 || gc == 4 || gc == 5 || gc == 6 || gc == 7 || gc == 8) && !(no_han
                && script(char_cp(s, p)) == 17)
        }
}

/// `[\p{Ll}\p{Lm}\p{Lo}\p{M}]`, without Han characters with `no_han`.
pub open spec fn lowers(no_han: bool) -> CharSet {
    |s: Seq<u8>, p: int|
        if s[p] < 0x80 {
            'a' as u8 <= s[p] <= 'z' as u8
        } else {
            let gc = general_category(char_cp(s, p));
            (gc == 2 || gc == 4 || gc == 5 || gc == 6 || gc == 7 || gc == 8) && !(no_han && script(
                char_cp(s, p),
            ) == 17)
        }
}

/// `\p{Han}`
pub open spec fn han() -> CharSet {
    |s: Seq<u8>, p: int| s[p] >= 0x80 && script(char_cp(s, p)) == 17
}

/// `'(?:[sdmt]|ll|ve|re)`
pub open spec fn short_forms() -> Pattern {
    cat(
        one(ch('\'')),
        alt(
            one(any_of('s', 'd', 'm', 't')),
            alt(
                cat(one(ch('l')), one(ch('l'))),
                alt(cat(one(ch('v')), one(ch('e'))), cat(one(ch('r')), one(ch('e')))),
            ),
        ),
    )
}

/// `'(?i:[sdmt]|ll|ve|re)`
pub open spec fn short_forms_any_case() -> Pattern {
    cat(
        one(ch('\'')),
        alt(
            one(any_of_any_case('s', 'd', 'm', 't')),
            alt(
                cat(one(any_case('l')), one(any_case('l'))),
                alt(
                    cat(one(any_case('v')), one(any_case('e'))),
                    cat(one(any_case('r')), one(any_case('e'))),
                ),
            ),
        ),
    )
}

/// ` ?X+`
pub open spec fn spaced(t: CharSet) -> Pattern {
    cat(opt(one(ch(' '))), plus(t))
}

/// `\s+(?!\S)|\s+`
pub open spec fn trailing_blanks(marks: bool) -> Pattern {
    alt(cat(plus(blanks(marks)), no_other_than(blanks(marks))), plus(blanks(marks)))
}

/// `'(?:[sdmt]|ll|ve|re)| ?\p{L}+| ?\p{N}+| ?[^\s\p{L}\p{N}]+|\s+(?!\S)|\s+`
pub open spec fn gpt2_pattern() -> Pattern {
    alt(
        short_forms(),
        alt(
            spaced(letters(false)),
            alt(spaced(numbers()), alt(spaced(others(false)), trailing_blanks(false))),
        ),
    )
}

/// The white space alternatives: `\s*[\r\n]+|\s+(?!\S)|\s+`, or with `whole`
/// `\s+$|\s*[\r\n]|\s+(?!\S)|\s+`.
pub open spec fn blanks_pattern(marks: bool, whole: bool) -> Pattern {
    if whole {
        alt(
            cat(plus(blanks(marks)), at_end()),
            alt(cat(star(blanks(marks)), one(line_ends())), trailing_blanks(marks)),
        )
    } else {
        alt(cat(star(blanks(marks)), plus(line_ends())), trailing_blanks(marks))
    }
}

/// `'(?i:[sdmt]|ll|ve|re)|[^\r\n\p{L}\p{N}]?\p{L}+|\p{N}{1,n}| ?[^\s\p{L}\p{N}]+[\r\n]*`
/// and the white space alternatives; with `marks`, `[\p{L}\p{M}]` in place of
/// `\p{L}` in the runs.
pub open spec fn gpt4_pattern(digits: nat, marks: bool, whole: bool) -> Pattern {
    alt(
        short_forms_any_case(),
        alt(
            cat(opt(one(prefixes())), plus(letters(marks))),
            alt(
                up_to(numbers(), digits),
                alt(
                    cat(spaced(others(marks)), star(line_ends())),
                    blanks_pattern(marks, whole),
                ),
            ),
        ),
    )
}

/// `[^\r\n\p{L}\p{N}]?U*L+|[^\r\n\p{L}\p{N}]?U+L*` with upper and lower sets.
pub open spec fn cased_words(no_han: bool, suffix: Pattern) -> Pattern {
    alt(
        cat(
            cat(opt(one(prefixes())), cat(star(uppers(no_han)), plus(lowers(no_han)))),
            suffix,
        ),
        cat(
            cat(opt(one(prefixes())), cat(plus(uppers(no_han)), star(lowers(no_han)))),
            suffix,
        ),
    )
}

/// Nothing.
pub open spec fn nothing() -> Pattern {
    |s: Seq<u8>, p: int| seq![p]
}

/// Cased words with or without a short form behind, `\p{N}{1,n}`,
/// ` ?[^\s\p{L}\p{N}]+[\r\n]*` or `[\r\n/]*`, and `\s*[\r\n]+|\s+(?!\S)|\s+`.
pub open spec fn o200k_pattern(
    contractions: bool,
    digits: nat,
    slash: bool,
    no_han: bool,
) -> Pattern {
    alt(
        cased_words(
            no_han,
            if contractions {
                opt(short_forms_any_case())
            } else {
                nothing()
            },
        ),
        alt(
            up_to(numbers(), digits),
            alt(
                cat(
                    spaced(others(false)),
                    star(
                        if slash {
                            line_ends_or_slash()
                        } else {
                            line_ends()
                        },
                    ),
                ),
                blanks_pattern(false, false),
            ),
        ),
    )
}

/// The pattern of each scheme.
pub open spec fn pattern_of(t: PretokenizerType) -> Pattern {
    match t {
        PretokenizerType::GPT2 => gpt2_pattern(),
        PretokenizerType::GPT4 => gpt4_pattern(3, false, true),
        PretokenizerType::Qwen2 => gpt4_pattern(1, false, false),
        PretokenizerType::Qwen35 => gpt4_pattern(1, true, false),
        PretokenizerType::Olmo3 => gpt4_pattern(3, false, false),
        PretokenizerType::O200k => o200k_pattern(true, 3, true, false),
        PretokenizerType::Nemotron => o200k_pattern(false, 1, true, false),
        PretokenizerType::Kimi => alt(plus(han()), o200k_pattern(true, 3, false, true)),
    }
}

} // verus!
