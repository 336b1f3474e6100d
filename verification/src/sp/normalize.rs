//! The normalizer steps and the marking of spaces.
use crate::pretokenize::chars::char_end;
use crate::search::{copy_bytes, occurs_at, stands_at};
use crate::sp::charsmap::{charsmap_text, CharsmapView, PrecompiledCharsmap};
use crate::sp::symbols::{next_char, sp_mark};
use crate::text::{spaces_end, spaces_start, trim_ws_end, trim_ws_start};
use vstd::prelude::*;
use vstd::utf8::encode_utf8;

verus! {

/// One step of a normalizer sequence.
pub enum NormOp {
    /// Puts text before a chunk that is not empty.
    Prepend(String),
    /// Replaces every occurrence of a text.
    Replace { pattern: String, content: String },
    /// Replaces every run of two or more spaces.
    CollapseSpaces { content: String },
    /// Strips white space.
    Strip { left: bool, right: bool },
    /// Maps characters by a precompiled charsmap.
    Precompiled(PrecompiledCharsmap),
}

/// The value of a normalizer step.
pub enum NormStep {
    Prepend(Seq<u8>),
    Replace(Seq<u8>, Seq<u8>),
    CollapseSpaces(Seq<u8>),
    Strip(bool, bool),
    Precompiled(CharsmapView),
}

impl NormOp {
    /// The value of the step.
    pub open spec fn view(&self) -> NormStep {
        match self {
            NormOp::Prepend(p) => NormStep::Prepend(encode_utf8(p@)),
            NormOp::Replace { pattern, content } => NormStep::Replace(
                encode_utf8(pattern@),
                encode_utf8(content@),
            ),
            NormOp::CollapseSpaces { content } => NormStep::CollapseSpaces(encode_utf8(content@)),
            NormOp::Strip { left, right } => NormStep::Strip(*left, *right),
            NormOp::Precompiled(m) => NormStep::Precompiled(m@),
        }
    }
}

/// `s` from `p` on with `content` before every character and at the end.
pub open spec fn interleaved(s: Seq<u8>, p: int, content: Seq<u8>) -> Seq<u8>
    decreases s.len() - p,
{
    if 0 <= p < s.len() {
        content + s.subrange(p, char_end(s, p)) + interleaved(s, char_end(s, p), content)
    } else {
        content
    }
}

/// `s` from `p` on with every occurrence of `pattern` replaced, from the left;
/// an empty pattern occurs before every character and at the end.
pub open spec fn replaced(s: Seq<u8>, p: int, pattern: Seq<u8>, content: Seq<u8>) -> Seq<u8>
    decreases s.len() - p,
{
    if pattern.len() == 0 {
        interleaved(s, p, content)
    } else if p >= s.len() || p < 0 {
        Seq::empty()
    } else if occurs_at(s, pattern, p) {
        content + replaced(s, p + pattern.len(), pattern, content)
    } else {
        seq![s[p]] + replaced(s, p + 1, pattern, content)
    }
}

/// Appends bytes.
pub fn append_bytes(out: &mut Vec<u8>, bytes: &[u8])
    ensures
        final(out)@ == old(out)@ + bytes@,
{
    let ghost before = out@;
    let mut i: usize = 0;
    while i < bytes.len()
        invariant
            i <= bytes@.len(),
            out@ == before + bytes@.take(i as int),
        decreases bytes@.len() - i,
    {
        out.push(bytes[i]);
        proof {
            assert(out@ =~= before + bytes@.take(i + 1));
        }
        i += 1;
    }
    proof {
        assert(bytes@.take(i as int) =~= bytes@);
    }
}

/// Replaces every occurrence of `pattern`.
pub fn replace_all(bytes: &[u8], pattern: &[u8], content: &[u8]) -> (r: Vec<u8>)
    ensures
        r@ == replaced(bytes@, 0, pattern@, content@),
{
    let mut out: Vec<u8> = Vec::new();
    let mut p: usize = 0;
    proof {
        assert(out@ + replaced(bytes@, 0, pattern@, content@) =~= replaced(
            bytes@,
            0,
            pattern@,
            content@,
        ));
    }
    if pattern.len() == 0 {
        while p < bytes.len()
            invariant
                p <= bytes@.len(),
                out@ + interleaved(bytes@, p as int, content@) == interleaved(
                    bytes@,
                    0,
                    content@,
                ),
            decreases bytes@.len() - p,
        {
            let ghost before = out@;
            let e: usize = next_char(bytes, p);
            append_bytes(&mut out, content);
            append_bytes(&mut out, vstd::slice::slice_subrange(bytes, p, e));
            proof {
                assert(out@ + interleaved(bytes@, e as int, content@) =~= before + interleaved(
                    bytes@,
                    p as int,
                    content@,
                ));
            }
            p = e;
        }
        append_bytes(&mut out, content);
        return out;
    }
    while p < bytes.len()
        invariant
            p <= bytes@.len(),
            pattern@.len() > 0,
            out@ + replaced(bytes@, p as int, pattern@, content@) == replaced(
                bytes@,
                0,
                pattern@,
                content@,
            ),
        decreases bytes@.len() - p,
    {
        let ghost before = out@;
        let ghost now = replaced(bytes@, p as int, pattern@, content@);
        if stands_at(bytes, pattern, p) {
            append_bytes(&mut out, content);
            proof {
                let rest = replaced(bytes@, p + pattern@.len(), pattern@, content@);
                assert(now == content@ + rest);
                assert(out@ + rest =~= before + now);
            }
            p += pattern.len();
        } else {
            out.push(bytes[p]);
            proof {
                let rest = replaced(bytes@, p + 1, pattern@, content@);
                assert(now == seq![bytes@[p as int]] + rest);
                assert(out@ + rest =~= before + now);
            }
            p += 1;
        }
    }
    proof {
        assert(replaced(bytes@, p as int, pattern@, content@) =~= Seq::<u8>::empty());
        assert(out@ + Seq::<u8>::empty() =~= out@);
    }
    out
}

/// The end of the run of spaces from `p` on.
pub open spec fn space_run_end(s: Seq<u8>, p: int) -> int
    decreases s.len() - p,
{
    if 0 <= p < s.len() && s[p] == 0x20 {
        space_run_end(s, p + 1)
    } else {
        p
    }
}

/// `s` from `p` on with every run of two or more spaces replaced.
pub open spec fn collapsed(s: Seq<u8>, p: int, content: Seq<u8>) -> Seq<u8>
    decreases s.len() - p,
    via collapsed_decreases
{
    if p >= s.len() || p < 0 {
        Seq::empty()
    } else if s[p] != 0x20 {
        seq![s[p]] + collapsed(s, p + 1, content)
    } else {
        let e = space_run_end(s, p);
        (if e - p >= 2 {
            content
        } else {
            seq![0x20u8]
        }) + collapsed(s, e, content)
    }
}

#[via_fn]
proof fn collapsed_decreases(s: Seq<u8>, p: int, content: Seq<u8>) {
    if 0 <= p < s.len() {
        lemma_space_run(s, p);
    }
}

proof fn lemma_space_run(s: Seq<u8>, p: int)
    requires
        0 <= p <= s.len(),
    ensures
        p <= space_run_end(s, p) <= s.len(),
        p < s.len() && s[p] == 0x20 ==> p < space_run_end(s, p),
    decreases s.len() - p,
{
    if p < s.len() && s[p] == 0x20 {
        lemma_space_run(s, p + 1);
    }
}

/// Replaces each run of two or more ASCII spaces with `content`.
pub fn collapse_space_runs(input: &[u8], content: &[u8]) -> (r: Vec<u8>)
    ensures
        r@ == collapsed(input@, 0, content@),
{
    let mut out: Vec<u8> = Vec::new();
    let mut i: usize = 0;
    proof {
        assert(out@ + collapsed(input@, 0, content@) =~= collapsed(input@, 0, content@));
    }
    while i < input.len()
        invariant
            i <= input@.len(),
            out@ + collapsed(input@, i as int, content@) == collapsed(input@, 0, content@),
        decreases input@.len() - i,
    {
        let ghost before = out@;
        let ghost now = collapsed(input@, i as int, content@);
        if input[i] == 0x20 {
            let mut j: usize = i + 1;
            while j < input.len() && input[j] == 0x20
                invariant
                    i < j <= input@.len(),
                    space_run_end(input@, j as int) == space_run_end(input@, i as int),
                decreases input@.len() - j,
            {
                j += 1;
            }
            if j - i >= 2 {
                append_bytes(&mut out, content);
            } else {
                out.push(0x20);
            }
            proof {
                let rest = collapsed(input@, j as int, content@);
                assert(out@ + rest =~= before + now);
            }
            i = j;
        } else {
            out.push(input[i]);
            proof {
                let rest = collapsed(input@, i + 1, content@);
                assert(out@ + rest =~= before + now);
            }
            i += 1;
        }
    }
    proof {
        assert(collapsed(input@, i as int, content@) =~= Seq::<u8>::empty());
        assert(out@ + Seq::<u8>::empty() =~= out@);
    }
    out
}

/// `s` without white space at its sides.
pub open spec fn stripped(s: Seq<u8>, left: bool, right: bool) -> Seq<u8> {
    let head = if right {
        s.take(spaces_start(s, s.len() as int))
    } else {
        s
    };
    if left {
        head.skip(spaces_end(head, 0))
    } else {
        head
    }
}

/// One normalizer step.
pub open spec fn norm_step(op: NormStep, s: Seq<u8>) -> Seq<u8> {
    match op {
        NormStep::Prepend(p) => if s.len() == 0 {
            s
        } else {
            p + s
        },
        NormStep::Replace(pattern, content) => replaced(s, 0, pattern, content),
        NormStep::CollapseSpaces(content) => collapsed(s, 0, content),
        NormStep::Strip(left, right) => stripped(s, left, right),
        NormStep::Precompiled(m) => charsmap_text(m, s),
    }
}

/// All normalizer steps in order.
pub open spec fn norm_steps(ops: Seq<NormStep>, s: Seq<u8>) -> Seq<u8>
    decreases ops.len(),
{
    if ops.len() == 0 {
        s
    } else {
        norm_step(ops.last(), norm_steps(ops.drop_last(), s))
    }
}

/// The values of a list of steps.
pub open spec fn step_views(v: Seq<NormOp>) -> Seq<NormStep> {
    v.map_values(|op: NormOp| op@)
}

/// Applies the normalizer steps to one chunk.
pub fn apply_norm_ops(ops: &Vec<NormOp>, input: &[u8]) -> (r: Vec<u8>)
    ensures
        r@ == norm_steps(step_views(ops@), input@),
{
    let ghost all = step_views(ops@);
    let mut s: Vec<u8> = copy_bytes(input);
    let mut i: usize = 0;
    proof {
        assert(all.take(0) =~= Seq::<NormStep>::empty());
    }
    while i < ops.len()
        invariant
            i <= ops@.len(),
            all == step_views(ops@),
            s@ == norm_steps(all.take(i as int), input@),
        decreases ops@.len() - i,
    {
        proof {
            assert(all.take(i + 1).drop_last() =~= all.take(i as int));
            assert(all.take(i + 1).last() == ops@[i as int]@);
        }
        match &ops[i] {
            NormOp::Prepend(prefix) => {
                if s.len() > 0 {
                    let mut out: Vec<u8> = copy_bytes(prefix.as_str().as_bytes());
                    append_bytes(&mut out, s.as_slice());
                    s = out;
                }
            },
            NormOp::Replace { pattern, content } => {
                s = replace_all(
                    s.as_slice(),
                    pattern.as_str().as_bytes(),
                    content.as_str().as_bytes(),
                );
            },
            NormOp::CollapseSpaces { content } => {
                s = collapse_space_runs(s.as_slice(), content.as_str().as_bytes());
            },
            NormOp::Strip { left, right } => {
                let ghost s0 = s@;
                if *right {
                    let e: usize = trim_ws_end(s.as_slice());
                    s.truncate(e);
                    proof {
                        assert(s@ =~= s0.take(e as int));
                    }
                }
                if *left {
                    let b: usize = trim_ws_start(s.as_slice());
                    let ghost s1 = s@;
                    s = copy_bytes(vstd::slice::slice_subrange(s.as_slice(), b, s.len()));
                    proof {
                        assert(s@ =~= s1.skip(b as int));
                    }
                }
            },
            NormOp::Precompiled(charsmap) => {
                s = charsmap.normalize_into(s.as_slice());
            },
        }
        i += 1;
    }
    proof {
        assert(all.take(i as int) =~= all);
    }
    s
}

/// When the marker is put before a chunk.
#[derive(Clone, Copy, Debug, PartialEq, Eq, Structural)]
pub enum PrependScheme {
    Never,
    Always,
    /// Only before the chunk at the very start of the input.
    First,
}

/// Replaces spaces by the marker, puts the marker before a chunk that does not
/// start with it, and, with `split`, keeps merges from crossing marks.
#[derive(Clone, Copy, Debug, PartialEq, Eq, Structural)]
pub struct Metaspace {
    pub prepend: PrependScheme,
    pub split: bool,
}

/// The scheme puts the marker before this chunk.
pub open spec fn prepends(p: PrependScheme, first_chunk: bool) -> bool {
    match p {
        PrependScheme::Always => true,
        PrependScheme::First => first_chunk,
        PrependScheme::Never => false,
    }
}

/// A chunk with its spaces marked.
pub open spec fn metaspaced(ms: Option<Metaspace>, s: Seq<u8>, first_chunk: bool) -> Seq<u8> {
    match ms {
        None => s,
        Some(m) => {
            let t = replaced(s, 0, seq![0x20u8], sp_mark());
            if prepends(m.prepend, first_chunk) && t.len() > 0 && !occurs_at(t, sp_mark(), 0) {
                sp_mark() + t
            } else {
                t
            }
        },
    }
}

/// The marking of spaces.
pub fn apply_metaspace(ms: &Option<Metaspace>, input: &[u8], first_chunk: bool) -> (r: Vec<u8>)
    ensures
        r@ == metaspaced(*ms, input@, first_chunk),
{
    match ms {
        None => copy_bytes(input),
        Some(m) => {
            let space: [u8; 1] = [0x20];
            let mark: [u8; 3] = [0xE2, 0x96, 0x81];
            let space_bytes: &[u8] = &space;
            let mark_bytes: &[u8] = &mark;
            proof {
                assert(space_bytes@ =~= seq![0x20u8]);
                assert(mark_bytes@ =~= sp_mark());
            }
            let t = replace_all(input, space_bytes, mark_bytes);
            let prepend = match m.prepend {
                PrependScheme::Always => true,
                PrependScheme::First => first_chunk,
                PrependScheme::Never => false,
            };
            if prepend && t.len() > 0 && !stands_at(t.as_slice(), mark_bytes, 0) {
                let mut out: Vec<u8> = copy_bytes(mark_bytes);
                append_bytes(&mut out, t.as_slice());
                out
            } else {
                t
            }
        },
    }
}

} // verus!
