//! What the pre-tokenizer and the normalizer of a file do to text.
use crate::load::json::{HfError, NormalizerJson, PreTokenizerJson};
use crate::load::normalizer::{list_steps, normalizer_steps};
use crate::load::pre_tokenizer::{
    adds_prefix_space, list_adds_prefix_space, nfc_of, nfc_of_list, own_regexes, regexes_of_list,
    scheme_of, sp_metaspace, split_regexes,
};
use crate::pretokenize::scheme::{regex_scheme, PretokenizerType};
use crate::pretokenize::scheme_laws::{
    law_pattern_names_scheme, law_scheme_is_of_its_pattern, possessive_pattern, scheme_pattern,
};
use crate::search::occurs_at;
use crate::sp::normalize::{metaspaced, norm_step, norm_steps, Metaspace, NormStep};
use crate::sp::normalize_laws::{
    is_stripped, law_collapse_keeps_single_spaces, law_metaspace_marks, law_one_step,
    law_prepend_puts_before, law_replace_takes_the_first, law_steps_apply_in_order,
    law_strip_takes_white_space, single_spaced,
};
use crate::sp::symbols::sp_mark;
use vstd::prelude::*;
use vstd::utf8::encode_utf8;

verus! {

/// A pre-tokenizer splits by a pattern.
pub open spec fn splits_by(pt: PreTokenizerJson, re: Seq<char>) -> bool {
    &&& pt.kind@ == "Split"@
    &&& pt.pretokenizers@.len() == 0
    &&& pt.pattern matches Some(p) && p.regex matches Some(r) && r@ == re
}

/// A file that splits by the pattern of a scheme gets that scheme.
pub proof fn law_split_gives_its_scheme(pt: PreTokenizerJson, t: PretokenizerType)
    requires
        splits_by(pt, scheme_pattern(t)),
    ensures
        scheme_of(Some(pt)) == Ok::<PretokenizerType, HfError>(t),
{
    law_pattern_names_scheme(t);
    lemma_regex_of_split(pt, scheme_pattern(t));
}

proof fn lemma_regex_of_split(pt: PreTokenizerJson, re: Seq<char>)
    requires
        splits_by(pt, re),
    ensures
        split_regexes(pt) == seq![re],
{
    assert(regexes_of_list(pt.pretokenizers@, 0) == Seq::<Seq<char>>::empty());
    assert(own_regexes(pt) =~= seq![re]);
    assert(split_regexes(pt) =~= seq![re]);
}

proof fn lemma_regexes_of_one_split(
    v: Seq<PreTokenizerJson>,
    i: int,
    re: Seq<char>,
    k: int,
)
    requires
        0 <= i < v.len(),
        0 <= k <= v.len(),
        splits_by(v[i], re),
        forall|j: int|
            0 <= j < v.len() && j != i ==> (#[trigger] v[j]).kind@ != "Split"@
                && v[j].pretokenizers@.len() == 0,
    ensures
        regexes_of_list(v, k) == if k <= i {
            Seq::<Seq<char>>::empty()
        } else {
            seq![re]
        },
    decreases k,
{
    if k > 0 {
        lemma_regexes_of_one_split(v, i, re, k - 1);
        let pt = v[k - 1];
        if k - 1 == i {
            lemma_regex_of_split(pt, re);
            assert(Seq::<Seq<char>>::empty() + seq![re] =~= seq![re]);
        } else {
            assert(regexes_of_list(pt.pretokenizers@, 0) == Seq::<Seq<char>>::empty());
            assert(split_regexes(pt) =~= Seq::<Seq<char>>::empty());
            assert(regexes_of_list(v, k) =~= regexes_of_list(v, k - 1));
        }
    }
}

/// In a sequence the one split decides, wherever it stands.
pub proof fn law_split_of_a_sequence_gives_its_scheme(
    pt: PreTokenizerJson,
    i: int,
    t: PretokenizerType,
)
    requires
        pt.kind@ == "Sequence"@,
        0 <= i < pt.pretokenizers@.len(),
        splits_by(pt.pretokenizers@[i], scheme_pattern(t)),
        forall|j: int|
            0 <= j < pt.pretokenizers@.len() && j != i ==> (#[trigger] pt.pretokenizers@[j]).kind@
                != "Split"@ && pt.pretokenizers@[j].pretokenizers@.len() == 0,
    ensures
        scheme_of(Some(pt)) == Ok::<PretokenizerType, HfError>(t),
{
    reveal_strlit("Sequence");
    reveal_strlit("Split");
    let v = pt.pretokenizers@;
    law_pattern_names_scheme(t);
    lemma_regexes_of_one_split(v, i, scheme_pattern(t), v.len() as int);
    assert("Sequence"@.len() != "Split"@.len());
    assert(own_regexes(pt) =~= Seq::<Seq<char>>::empty());
    assert(split_regexes(pt) =~= seq![scheme_pattern(t)]);
}

/// Two splits side by side are no scheme.
pub proof fn law_two_splits_are_refused(pt: PreTokenizerJson, a: Seq<char>, b: Seq<char>)
    requires
        pt.kind@ == "Sequence"@,
        pt.pretokenizers@.len() == 2,
        splits_by(pt.pretokenizers@[0], a),
        splits_by(pt.pretokenizers@[1], b),
    ensures
        scheme_of(Some(pt)) is Err,
{
    let v = pt.pretokenizers@;
    lemma_regex_of_split(v[0], a);
    lemma_regex_of_split(v[1], b);
    assert(regexes_of_list(v, 0) == Seq::<Seq<char>>::empty());
    assert(regexes_of_list(v, 1) =~= seq![a]);
    assert(regexes_of_list(v, 2) =~= seq![a, b]);
    assert(split_regexes(pt).len() >= 2);
}

/// A sequence of normalizers that are all NFC is NFC, and one with another
/// plain normalizer is refused.
pub proof fn law_sequence_is_nfc(n: NormalizerJson)
    requires
        n.kind@ == "Sequence"@,
        forall|j: int|
            0 <= j < n.normalizers@.len() ==> (#[trigger] n.normalizers@[j]).kind@ != "Sequence"@,
    ensures
        (forall|j: int|
            0 <= j < n.normalizers@.len() ==> (#[trigger] n.normalizers@[j]).kind@ == "NFC"@)
            ==> nfc_of(n) == Ok::<bool, HfError>(n.normalizers@.len() > 0),
        (exists|j: int|
            0 <= j < n.normalizers@.len() && (#[trigger] n.normalizers@[j]).kind@ != "NFC"@)
            ==> nfc_of(n) is Err,
{
    reveal_strlit("Sequence");
    reveal_strlit("NFC");
    assert("Sequence"@.len() != "NFC"@.len());
    lemma_nfc_list(n.normalizers@, n.normalizers@.len() as int);
}

proof fn lemma_nfc_list(v: Seq<NormalizerJson>, k: int)
    requires
        0 <= k <= v.len(),
        forall|j: int| 0 <= j < v.len() ==> (#[trigger] v[j]).kind@ != "Sequence"@,
    ensures
        (forall|j: int| 0 <= j < k ==> (#[trigger] v[j]).kind@ == "NFC"@) ==> nfc_of_list(v, k)
            == Ok::<bool, HfError>(k > 0),
        (exists|j: int| 0 <= j < k && (#[trigger] v[j]).kind@ != "NFC"@) ==> nfc_of_list(v, k) is Err,
    decreases k,
{
    if k > 0 {
        lemma_nfc_list(v, k - 1);
        assert(v[k - 1].kind@ != "Sequence"@);
        if v[k - 1].kind@ == "NFC"@ {
            assert(nfc_of(v[k - 1]) == Ok::<bool, HfError>(true));
        } else {
            assert(nfc_of(v[k - 1]) is Err);
        }
    }
}

/// A chain puts a space before the text where a byte-level step in it says so.
pub proof fn law_some_step_adds_the_space(pt: PreTokenizerJson)
    requires
        pt.kind@ == "Sequence"@,
        forall|j: int|
            0 <= j < pt.pretokenizers@.len() ==> (#[trigger] pt.pretokenizers@[j]).pretokenizers@.len()
                == 0,
    ensures
        adds_prefix_space(pt) <==> exists|j: int|
            0 <= j < pt.pretokenizers@.len() && (#[trigger] pt.pretokenizers@[j]).kind@
                == "ByteLevel"@ && pt.pretokenizers@[j].add_prefix_space == Some(true),
{
    reveal_strlit("Sequence");
    reveal_strlit("ByteLevel");
    assert("Sequence"@.len() != "ByteLevel"@.len());
    lemma_some_step_adds(pt.pretokenizers@, pt.pretokenizers@.len() as int);
}

proof fn lemma_some_step_adds(v: Seq<PreTokenizerJson>, k: int)
    requires
        0 <= k <= v.len(),
        forall|j: int| 0 <= j < v.len() ==> (#[trigger] v[j]).pretokenizers@.len() == 0,
    ensures
        list_adds_prefix_space(v, k) <==> exists|j: int|
            0 <= j < k && (#[trigger] v[j]).kind@ == "ByteLevel"@ && v[j].add_prefix_space == Some(
                true,
            ),
    decreases k,
{
    if k > 0 {
        lemma_some_step_adds(v, k - 1);
        let pt = v[k - 1];
        assert(!list_adds_prefix_space(pt.pretokenizers@, 0));
        assert(adds_prefix_space(pt) == (pt.kind@ == "ByteLevel"@ && pt.add_prefix_space == Some(
            true,
        )));
    }
}

/// The marking of spaces of a file: the marker stands before every chunk with
/// `always`, before the first with `first`, and is never put with `never`.
/// Without a scheme the older switch says whether it is put before every chunk,
/// which it is unless it is off.
pub proof fn law_metaspace_of_a_file(
    pt: PreTokenizerJson,
    steps: Seq<NormStep>,
    s: Seq<u8>,
    first: bool,
)
    requires
        pt.kind@ == "Metaspace"@,
        pt.replacement is None || pt.replacement->0@ == "\u{2581}"@,
        pt.prepend_scheme matches Some(p) ==> p@ == "always"@ || p@ == "first"@ || p@ == "never"@,
        s.len() > 0,
        s[0] != 0x20,
        s[0] != 0xE2,
    ensures
        sp_metaspace(Some(pt), steps) is Ok,
        sp_metaspace(Some(pt), steps)->Ok_0 is Some,
        ({
            let ms = sp_metaspace(Some(pt), steps)->Ok_0;
            let marked = occurs_at(metaspaced(ms, s, first), sp_mark(), 0);
            &&& pt.prepend_scheme matches Some(p) ==> {
                &&& p@ == "always"@ ==> marked
                &&& p@ == "first"@ ==> marked == first
                &&& p@ == "never"@ ==> !marked
            }
            &&& pt.prepend_scheme is None ==> marked == (pt.add_prefix_space != Some(false))
            &&& ms->0.split == (pt.split != Some(false))
        }),
{
    reveal_strlit("always");
    reveal_strlit("first");
    reveal_strlit("never");
    assert("always"@.len() == 6 && "first"@.len() == 5 && "never"@.len() == 5);
    assert("first"@[0] == 'f' && "never"@[0] == 'n');
    let m = sp_metaspace(Some(pt), steps)->Ok_0;
    let ms = m->0;
    law_metaspace_marks(ms, s, first);
    lemma_first_byte_stays(s);
    let t = norm_step(NormStep::Replace(seq![0x20u8], sp_mark()), s);
    if occurs_at(t, sp_mark(), 0) {
        assert(t.subrange(0, 3)[0] == sp_mark()[0]);
    }
}

proof fn lemma_first_byte_stays(s: Seq<u8>)
    requires
        s.len() > 0,
        s[0] != 0x20,
    ensures
        ({
            let t = norm_step(NormStep::Replace(seq![0x20u8], sp_mark()), s);
            t.len() > 0 && t[0] == s[0]
        }),
{
    let space = seq![0x20u8];
    if occurs_at(s, space, 0) {
        assert(s.subrange(0, 1)[0] == space[0]);
    }
}

/// What a normalizer that puts text before does to a chunk.
pub proof fn law_prepend_normalizer(n: NormalizerJson, s: Seq<u8>)
    requires
        n.kind@ == "Prepend"@,
        n.prepend is Some,
        s.len() > 0,
    ensures
        normalizer_steps(n) is Ok,
        norm_steps(normalizer_steps(n)->Ok_0, s) == encode_utf8(n.prepend->0@) + s,
{
    reveal_strlit("Sequence");
    reveal_strlit("Prepend");
    assert("Sequence"@.len() != "Prepend"@.len());
    let p = encode_utf8(n.prepend->0@);
    law_one_step(NormStep::Prepend(p), s);
    law_prepend_puts_before(p, s);
    let r = norm_steps(normalizer_steps(n)->Ok_0, s);
    assert(r =~= r.take(p.len() as int) + r.skip(p.len() as int));
}

/// What a normalizer that replaces a text does: the first occurrence gives way,
/// and so on behind it.
pub proof fn law_replace_normalizer(n: NormalizerJson, s: Seq<u8>, i: int)
    requires
        n.kind@ == "Replace"@,
        n.content is Some,
        n.pattern matches Some(p) && p.literal is Some,
        encode_utf8(n.pattern->0.literal->0@).len() > 0,
        occurs_at(s, encode_utf8(n.pattern->0.literal->0@), i),
        forall|j: int|
            0 <= j < i ==> !#[trigger] occurs_at(s, encode_utf8(n.pattern->0.literal->0@), j),
    ensures
        normalizer_steps(n) is Ok,
        ({
            let steps = normalizer_steps(n)->Ok_0;
            let w = encode_utf8(n.pattern->0.literal->0@).len();
            norm_steps(steps, s) == s.take(i) + encode_utf8(n.content->0@) + norm_steps(
                steps,
                s.skip(i + w),
            )
        }),
{
    lemma_replace_kind();
    let p = encode_utf8(n.pattern->0.literal->0@);
    let c = encode_utf8(n.content->0@);
    law_one_step(NormStep::Replace(p, c), s);
    law_one_step(NormStep::Replace(p, c), s.skip(i + p.len()));
    law_replace_takes_the_first(p, c, s, i);
}

proof fn lemma_replace_kind()
    ensures
        "Replace"@ != "Sequence"@,
        "Replace"@ != "Prepend"@,
        "Strip"@ != "Sequence"@,
        "Strip"@ != "Prepend"@,
        "Strip"@ != "Replace"@,
{
    reveal_strlit("Sequence");
    reveal_strlit("Prepend");
    reveal_strlit("Replace");
    reveal_strlit("Strip");
    assert("Sequence"@.len() == 8 && "Prepend"@.len() == 7 && "Replace"@.len() == 7
        && "Strip"@.len() == 5);
    assert("Prepend"@[0] == 'P' && "Replace"@[0] == 'R');
}

/// A normalizer for runs of spaces leaves single spaces alone.
pub proof fn law_space_run_normalizer(n: NormalizerJson, s: Seq<u8>)
    requires
        n.kind@ == "Replace"@,
        n.content is Some,
        n.pattern is Some,
        n.pattern->0.literal is None,
        n.pattern->0.regex matches Some(r) && r@ == " {2,}"@,
        single_spaced(s),
    ensures
        normalizer_steps(n) is Ok,
        norm_steps(normalizer_steps(n)->Ok_0, s) == s,
{
    lemma_replace_kind();
    let c = encode_utf8(n.content->0@);
    law_one_step(NormStep::CollapseSpaces(c), s);
    law_collapse_keeps_single_spaces(c, s);
}

/// A stripping normalizer strips both sides unless a side is switched off.
pub proof fn law_strip_normalizer(n: NormalizerJson, s: Seq<u8>)
    requires
        n.kind@ == "Strip"@,
    ensures
        normalizer_steps(n) is Ok,
        is_stripped(
            s,
            norm_steps(normalizer_steps(n)->Ok_0, s),
            n.strip_left != Some(false),
            n.strip_right != Some(false),
        ),
{
    lemma_replace_kind();
    let left = n.strip_left != Some(false);
    let right = n.strip_right != Some(false);
    law_one_step(NormStep::Strip(left, right), s);
    law_strip_takes_white_space(left, right, s);
    assert(normalizer_steps(n) == Ok::<Seq<NormStep>, HfError>(
        seq![NormStep::Strip(left, right)],
    ));
}

/// The text after the first `k` normalizers of a list, one after the other.
pub open spec fn after_each(v: Seq<NormalizerJson>, s: Seq<u8>) -> Seq<u8>
    decreases v.len(),
{
    if v.len() == 0 {
        s
    } else {
        after_each(v.skip(1), norm_steps(normalizer_steps(v[0])->Ok_0, s))
    }
}

/// A sequence of normalizers does what they do one after the other, the first
/// one first. One that cannot be had makes the sequence impossible.
pub proof fn law_sequence_normalizer(n: NormalizerJson, s: Seq<u8>)
    requires
        n.kind@ == "Sequence"@,
    ensures
        normalizer_steps(n) is Ok <==> forall|j: int|
            0 <= j < n.normalizers@.len() ==> normalizer_steps(#[trigger] n.normalizers@[j]) is Ok,
        normalizer_steps(n) is Ok ==> norm_steps(normalizer_steps(n)->Ok_0, s) == after_each(
            n.normalizers@,
            s,
        ),
{
    let v = n.normalizers@;
    lemma_list_steps(v, v.len() as int, s);
    assert(v.take(v.len() as int) =~= v);
}

proof fn lemma_list_steps(v: Seq<NormalizerJson>, k: int, s: Seq<u8>)
    requires
        0 <= k <= v.len(),
    ensures
        list_steps(v, k) is Ok <==> forall|j: int|
            0 <= j < k ==> normalizer_steps(#[trigger] v[j]) is Ok,
        list_steps(v, k) is Ok ==> norm_steps(list_steps(v, k)->Ok_0, s) == after_each(
            v.take(k),
            s,
        ),
    decreases k,
{
    if k > 0 {
        lemma_list_steps(v, k - 1, s);
        if list_steps(v, k) is Ok {
            let head = list_steps(v, k - 1)->Ok_0;
            let tail = normalizer_steps(v[k - 1])->Ok_0;
            law_steps_apply_in_order(head, tail, s);
            lemma_after_last(v.take(k), s);
            assert(v.take(k).drop_last() =~= v.take(k - 1));
        }
    }
}

proof fn lemma_after_last(v: Seq<NormalizerJson>, s: Seq<u8>)
    requires
        v.len() > 0,
    ensures
        after_each(v, s) == norm_steps(
            normalizer_steps(v.last())->Ok_0,
            after_each(v.drop_last(), s),
        ),
    decreases v.len(),
{
    if v.len() > 1 {
        let t = norm_steps(normalizer_steps(v[0])->Ok_0, s);
        lemma_after_last(v.skip(1), t);
        assert(v.skip(1).drop_last() =~= v.drop_last().skip(1));
        assert(v.drop_last()[0] == v[0]);
    } else {
        assert(v.skip(1) =~= Seq::<NormalizerJson>::empty());
        assert(after_each(v.skip(1), norm_steps(normalizer_steps(v[0])->Ok_0, s)) == norm_steps(
            normalizer_steps(v[0])->Ok_0,
            s,
        ));
        assert(after_each(v.drop_last(), s) == s);
    }
}

/// A file without a pre-tokenizer, or with a plain byte-level one, splits like
/// GPT-2. Another one without a pattern is refused, and so is a pattern that no
/// scheme has.
pub proof fn law_no_pattern_is_gpt2(pt: PreTokenizerJson)
    requires
        pt.pretokenizers@.len() == 0,
    ensures
        scheme_of(None) == Ok::<PretokenizerType, HfError>(PretokenizerType::GPT2),
        pt.kind@ == "ByteLevel"@ ==> scheme_of(Some(pt)) == Ok::<PretokenizerType, HfError>(
            PretokenizerType::GPT2,
        ),
        pt.kind@ != "ByteLevel"@ && pt.kind@ != "Split"@ ==> scheme_of(Some(pt)) == Err::<
            PretokenizerType,
            HfError,
        >(HfError::NoSplitRegex),
        pt.kind@ == "Split"@ && (pt.pattern matches Some(p) && p.regex matches Some(re) && re@
            != possessive_pattern() && forall|t: PretokenizerType| re@ != #[trigger] scheme_pattern(
            t,
        )) ==> scheme_of(Some(pt)) == Err::<PretokenizerType, HfError>(
            HfError::UnknownSplitRegexes,
        ),
{
    reveal_strlit("ByteLevel");
    reveal_strlit("Split");
    assert("ByteLevel"@.len() != "Split"@.len());
    assert(regexes_of_list(pt.pretokenizers@, 0) == Seq::<Seq<char>>::empty());
    if pt.kind@ != "Split"@ {
        assert(split_regexes(pt) =~= Seq::<Seq<char>>::empty());
    } else if pt.pattern matches Some(p) && p.regex matches Some(re) && re@ != possessive_pattern()
        && forall|t: PretokenizerType| re@ != #[trigger] scheme_pattern(t) {
        let re = pt.pattern->0.regex->0@;
        lemma_regex_of_split(pt, re);
        if regex_scheme(re) is Some {
            law_scheme_is_of_its_pattern(re, regex_scheme(re)->0);
        }
    }
}

/// A sequence of one marking of spaces is that marking.
pub proof fn law_sequence_of_one_metaspace(pt: PreTokenizerJson, steps: Seq<NormStep>)
    requires
        pt.kind@ == "Sequence"@,
        pt.pretokenizers@.len() == 1,
        pt.pretokenizers@[0].kind@ == "Metaspace"@,
    ensures
        sp_metaspace(Some(pt), steps) == sp_metaspace(Some(pt.pretokenizers@[0]), steps),
        sp_metaspace(None, steps) == Ok::<_, HfError>(None::<Metaspace>),
{
    reveal_strlit("Sequence");
    reveal_strlit("Metaspace");
    assert("Sequence"@.len() != "Metaspace"@.len());
}

/// A split at spaces is accepted, and does nothing, where a step of the
/// normalizer replaces each space by the marker. Without such a step it is
/// refused.
pub proof fn law_split_at_spaces(pt: PreTokenizerJson, steps: Seq<NormStep>, i: int)
    requires
        pt.kind@ == "Split"@,
        pt.pattern is Some,
        pt.pattern->0.literal matches Some(l) && l@ == " "@,
        pt.behavior matches Some(b) && b@ == "MergedWithPrevious"@,
    ensures
        0 <= i < steps.len() && steps[i] == NormStep::Replace(seq![0x20u8], sp_mark())
            ==> sp_metaspace(Some(pt), steps) == Ok::<_, HfError>(None::<Metaspace>),
        (forall|j: int| 0 <= j < steps.len() ==> !((#[trigger] steps[j]) is Replace))
            ==> sp_metaspace(Some(pt), steps) == Err::<Option<Metaspace>, HfError>(
            HfError::UnsupportedPreTokenizer,
        ),
{
    reveal_strlit("Sequence");
    reveal_strlit("Metaspace");
    reveal_strlit("Split");
    assert("Sequence"@.len() == 8 && "Metaspace"@.len() == 9 && "Split"@.len() == 5);
    if 0 <= i < steps.len() && steps[i] == NormStep::Replace(seq![0x20u8], sp_mark()) {
        assert(!sp_mark().contains(0x20));
        assert(steps[i] is Replace);
    }
}

} // verus!
