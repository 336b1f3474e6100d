//! File formats: how a name tells them, and how bytes divide into regions of
//! whole documents.
use crate::bpe::rules::has_suffix;
use crate::input::documents::{
    documents, first_from, law_documents_divide, lemma_first_from, lemma_first_is, next_separator,
    unbordered,
};
use crate::input::jsonl::{law_lines_divide, lines_from};
use crate::search::{ends_with, find, find_byte, occurs_at};
use crate::sp::fragments::as_pairs;
use vstd::prelude::*;
use vstd::utf8::encode_utf8;

verus! {

/// How a file is compressed.
#[derive(Clone, Copy, Debug, PartialEq, Eq, Structural)]
pub enum Compression {
    Plain,
    Gzip,
    Zstd,
}

/// How the bytes of a file divide into documents.
pub enum DocFormat {
    /// The pieces between separators, or the whole file without one.
    Text { separator: Option<Vec<u8>> },
    /// One document per line: the text of a field.
    Jsonl { field: String },
    /// One document per row: the text of a column.
    Parquet { column: String },
}

impl DocFormat {
    /// The separator of text documents; empty means one document.
    pub open spec fn separator_bytes(&self) -> Seq<u8> {
        match self {
            DocFormat::Text { separator: Some(s) } => s@,
            _ => Seq::empty(),
        }
    }

    /// The separator of text documents; empty means one document.
    pub fn separator(&self) -> (r: &[u8])
        ensures
            r@ == self.separator_bytes(),
    {
        match self {
            DocFormat::Text { separator: Some(s) } => s.as_slice(),
            _ => {
                let none: &[u8] = &[];
                proof {
                    assert(none@ =~= Seq::<u8>::empty());
                }
                none
            },
        }
    }
}

/// `.zst`
pub open spec fn zst() -> Seq<u8> {
    seq![0x2Eu8, 0x7A, 0x73, 0x74]
}

/// `.zstd`
pub open spec fn zstd() -> Seq<u8> {
    seq![0x2Eu8, 0x7A, 0x73, 0x74, 0x64]
}

/// `.gz`
pub open spec fn gz() -> Seq<u8> {
    seq![0x2Eu8, 0x67, 0x7A]
}

/// `.jsonl`
pub open spec fn jsonl() -> Seq<u8> {
    seq![0x2Eu8, 0x6A, 0x73, 0x6F, 0x6E, 0x6C]
}

/// `.parquet`
pub open spec fn parquet() -> Seq<u8> {
    seq![0x2Eu8, 0x70, 0x61, 0x72, 0x71, 0x75, 0x65, 0x74]
}

/// The name without its compression ending, and the compression.
pub open spec fn compression_of_name(s: Seq<u8>) -> (Seq<u8>, Compression) {
    if has_suffix(s, zst()) {
        (s.take(s.len() - 4), Compression::Zstd)
    } else if has_suffix(s, zstd()) {
        (s.take(s.len() - 5), Compression::Zstd)
    } else if has_suffix(s, gz()) {
        (s.take(s.len() - 3), Compression::Gzip)
    } else {
        (s, Compression::Plain)
    }
}

/// The name without an ending that starts with a dot.
fn strip_ending<'a>(name: &'a str, ending: &[u8]) -> (r: Option<&'a str>)
    requires
        ending@.len() > 0,
        ending@[0] == 0x2E,
    ensures
        match r {
            Some(stem) => has_suffix(encode_utf8(name@), ending@) && encode_utf8(stem@)
                == encode_utf8(name@).take(encode_utf8(name@).len() - ending@.len()),
            None => !has_suffix(encode_utf8(name@), ending@),
        },
{
    let bytes = name.as_bytes();
    let total: usize = bytes.len();
    if !ends_with(bytes, ending) {
        return None;
    }
    let mid: usize = total - ending.len();
    proof {
        let s = encode_utf8(name@);
        vstd::utf8::encode_utf8_valid_utf8(name@);
        assert(s.skip(mid as int)[0] == s[mid as int]);
        assert(s[mid as int] == 0x2E);
        vstd::utf8::is_char_boundary_iff_not_is_continuation_byte(s, mid as int);
        vstd::utf8::utf8_byte_ranges_bitwise(s[mid as int]);
    }
    let (stem, _) = name.split_at(mid);
    proof {
        assert(encode_utf8(stem@) =~= encode_utf8(name@).take(mid as int));
    }
    Some(stem)
}

/// Strips a compression ending.
pub fn detect_compression(name: &str) -> (r: (&str, Compression))
    ensures
        (encode_utf8(r.0@), r.1) == compression_of_name(encode_utf8(name@)),
{
    let a: [u8; 4] = [0x2E, 0x7A, 0x73, 0x74];
    let b: [u8; 5] = [0x2E, 0x7A, 0x73, 0x74, 0x64];
    let c: [u8; 3] = [0x2E, 0x67, 0x7A];
    let zst_bytes: &[u8] = &a;
    let zstd_bytes: &[u8] = &b;
    let gz_bytes: &[u8] = &c;
    proof {
        assert(zst_bytes@ =~= zst());
        assert(zstd_bytes@ =~= zstd());
        assert(gz_bytes@ =~= gz());
    }
    match strip_ending(name, zst_bytes) {
        Some(stem) => {
            return (stem, Compression::Zstd);
        },
        None => {},
    }
    match strip_ending(name, zstd_bytes) {
        Some(stem) => {
            return (stem, Compression::Zstd);
        },
        None => {},
    }
    match strip_ending(name, gz_bytes) {
        Some(stem) => (stem, Compression::Gzip),
        None => (name, Compression::Plain),
    }
}

/// A format is that of a file with this name, without its compression ending:
/// JSON Lines and Parquet by their endings, with documents in `text`; any other
/// file is one document.
pub open spec fn is_default_format(stem: Seq<u8>, r: DocFormat) -> bool {
    if has_suffix(stem, jsonl()) {
        r matches DocFormat::Jsonl { field } && field@ == "text"@
    } else if has_suffix(stem, parquet()) {
        r matches DocFormat::Parquet { column } && column@ == "text"@
    } else {
        r matches DocFormat::Text { separator: None }
    }
}

/// The format of a file that is given by name alone: JSON Lines and Parquet
/// by their endings, with documents in `text`; any other file is one
/// document.
pub fn detect_default_format(name: &str) -> (r: DocFormat)
    ensures
        is_default_format(compression_of_name(encode_utf8(name@)).0, r),
{
    let a: [u8; 6] = [0x2E, 0x6A, 0x73, 0x6F, 0x6E, 0x6C];
    let b: [u8; 8] = [0x2E, 0x70, 0x61, 0x72, 0x71, 0x75, 0x65, 0x74];
    let jsonl_bytes: &[u8] = &a;
    let parquet_bytes: &[u8] = &b;
    proof {
        assert(jsonl_bytes@ =~= jsonl());
        assert(parquet_bytes@ =~= parquet());
    }
    let (stem, _) = detect_compression(name);
    if ends_with(stem.as_bytes(), jsonl_bytes) {
        DocFormat::Jsonl { field: "text".to_owned() }
    } else if ends_with(stem.as_bytes(), parquet_bytes) {
        DocFormat::Parquet { column: "text".to_owned() }
    } else {
        DocFormat::Text { separator: None }
    }
}

/// Where a region that reaches `probe` ends and the next one starts.
pub open spec fn region_end(format: DocFormat, s: Seq<u8>, probe: int) -> Option<(int, int)> {
    match format {
        DocFormat::Jsonl { .. } => match first_from(s, seq![0x0Au8], probe, s.len() as int) {
            Some(q) => Some((q + 1, q + 1)),
            None => None,
        },
        _ => match next_separator(s, format.separator_bytes(), probe, s.len() as int) {
            Some(f) => Some((f, f + format.separator_bytes().len())),
            None => None,
        },
    }
}

/// The regions from `start` on: each ends at the first document boundary at
/// least `target` bytes on.
pub open spec fn regions_from(format: DocFormat, s: Seq<u8>, target: int, start: int) -> Seq<(int, int)>
    decreases s.len() - start,
    via regions_decreases
{
    let len = s.len() as int;
    if start >= len || target < 0 {
        Seq::empty()
    } else if start + target >= len {
        seq![(start, len)]
    } else {
        match region_end(format, s, start + target) {
            Some((e, next)) => seq![(start, e)] + regions_from(format, s, target, next),
            None => seq![(start, len)],
        }
    }
}

#[via_fn]
proof fn regions_decreases(format: DocFormat, s: Seq<u8>, target: int, start: int) {
    lemma_first_from(s, seq![0x0Au8], start + target, s.len() as int);
    lemma_first_from(s, format.separator_bytes(), start + target, s.len() as int);
}

/// The regions of a file; an empty file is one empty region.
pub open spec fn regions(format: DocFormat, s: Seq<u8>, target: int) -> Seq<(int, int)> {
    if s.len() == 0 {
        seq![(0int, 0int)]
    } else if format is Text && format.separator_bytes().len() == 0 {
        seq![(0int, s.len() as int)]
    } else {
        regions_from(format, s, target, 0)
    }
}

/// Finds where a region that reaches `probe` ends and the next one starts.
fn find_region_end(bytes: &[u8], format: &DocFormat, probe: usize) -> (r: Option<(usize, usize)>)
    requires
        probe < bytes@.len(),
    ensures
        match r {
            Some((e, next)) => region_end(*format, bytes@, probe as int) == Some(
                (e as int, next as int),
            ) && probe <= e <= next <= bytes@.len() && probe < next,
            None => region_end(*format, bytes@, probe as int) is None,
        },
{
    let ghost s = bytes@;
    let total: usize = bytes.len();
    let rest = vstd::slice::slice_subrange(bytes, probe, total);
    match format {
        DocFormat::Jsonl { .. } => match find_byte(0x0A, rest) {
            Some(off) => {
                proof {
                    let nl = seq![0x0Au8];
                    assert(s.subrange(probe + off, probe + off + 1) =~= nl);
                    assert forall|j: int| probe <= j < probe + off implies !#[trigger] occurs_at(
                        s,
                        nl,
                        j,
                    ) by {
                        assert(rest@[j - probe] != 0x0A);
                        if occurs_at(s, nl, j) {
                            assert(s.subrange(j, j + 1)[0] == s[j]);
                        }
                    }
                    lemma_first_is(s, nl, probe as int, total as int, probe + off);
                }
                Some((probe + off + 1, probe + off + 1))
            },
            None => {
                proof {
                    let nl = seq![0x0Au8];
                    lemma_first_from(s, nl, probe as int, total as int);
                    if first_from(s, nl, probe as int, total as int) is Some {
                        let f = first_from(s, nl, probe as int, total as int)->0;
                        assert(s.subrange(f, f + 1)[0] == s[f]);
                        assert(rest@[f - probe] != 0x0A);
                    }
                }
                None
            },
        },
        _ => {
            let sep = format.separator();
            if sep.len() == 0 {
                return None;
            }
            match find(rest, sep) {
                Some(off) => {
                    proof {
                        let n = sep@.len();
                        assert(rest@.subrange(off as int, off + n) =~= s.subrange(
                            probe + off,
                            probe + off + n,
                        ));
                        assert forall|j: int| probe <= j < probe + off implies !#[trigger] occurs_at(
                            s,
                            sep@,
                            j,
                        ) by {
                            if occurs_at(s, sep@, j) {
                                assert(rest@.subrange(j - probe, j - probe + n) =~= s.subrange(
                                    j,
                                    j + n,
                                ));
                                assert(occurs_at(rest@, sep@, j - probe));
                            }
                        }
                        lemma_first_is(s, sep@, probe as int, total as int, probe + off);
                    }
                    Some((probe + off, probe + off + sep.len()))
                },
                None => {
                    proof {
                        lemma_first_from(s, sep@, probe as int, total as int);
                        if first_from(s, sep@, probe as int, total as int) is Some {
                            let f = first_from(s, sep@, probe as int, total as int)->0;
                            let n = sep@.len();
                            assert(rest@.subrange(f - probe, f - probe + n) =~= s.subrange(
                                f,
                                f + n,
                            ));
                            assert(occurs_at(rest@, sep@, f - probe));
                        }
                    }
                    None
                },
            }
        },
    }
}

/// Cuts `bytes` into ranges of roughly `target` bytes, each ending on a
/// document boundary. Text without a separator is one document and stays one
/// range.
pub fn chunk_ranges(bytes: &[u8], format: &DocFormat, target: usize) -> (out: Vec<(usize, usize)>)
    requires
        !(*format is Parquet),
    ensures
        as_pairs(out@) == regions(*format, bytes@, target as int),
        forall|i: int| 0 <= i < out@.len() ==> (#[trigger] out@[i]).0 <= out@[i].1 <= bytes@.len(),
{
    let ghost s = bytes@;
    let total: usize = bytes.len();
    let mut out: Vec<(usize, usize)> = Vec::new();
    let whole = match format {
        DocFormat::Text { .. } => format.separator().len() == 0,
        _ => false,
    };
    if total == 0 || whole {
        out.push((0, total));
        proof {
            assert(as_pairs(out@) =~= seq![(0int, s.len() as int)]);
        }
        return out;
    }
    let mut start: usize = 0;
    let ghost all = regions_from(*format, s, target as int, 0);
    proof {
        assert(as_pairs(out@) + all =~= all);
    }
    while start < total
        invariant
            s == bytes@,
            total == s.len(),
            start <= total,
            as_pairs(out@) + regions_from(*format, s, target as int, start as int) == all,
            forall|i: int| 0 <= i < out@.len() ==> (#[trigger] out@[i]).0 <= out@[i].1 <= total,
        decreases total - start,
    {
        let ghost before = out@;
        let ghost here = regions_from(*format, s, target as int, start as int);
        let (e, next): (usize, usize) = if target < total - start {
            match find_region_end(bytes, format, start + target) {
                Some(x) => x,
                None => (total, total),
            }
        } else {
            (total, total)
        };
        out.push((start, e));
        proof {
            assert(as_pairs(out@) =~= as_pairs(before).push((start as int, e as int)));
            let rest = regions_from(*format, s, target as int, next as int);
            assert(here =~= seq![(start as int, e as int)] + rest);
            assert(as_pairs(out@) + rest =~= as_pairs(before) + here);
        }
        start = next;
    }
    proof {
        assert(as_pairs(out@) =~= all);
    }
    out
}

/// The documents of text regions, region by region.
pub open spec fn region_documents(s: Seq<u8>, sep: Seq<u8>, v: Seq<(int, int)>) -> Seq<(int, int)>
    decreases v.len(),
{
    if v.len() == 0 {
        Seq::empty()
    } else {
        documents(s, sep, v[0].0, v[0].1) + region_documents(s, sep, v.drop_first())
    }
}

proof fn lemma_regions_text(format: DocFormat, s: Seq<u8>, target: int, start: int)
    requires
        format is Text,
        format.separator_bytes().len() > 0,
        unbordered(format.separator_bytes()),
        0 <= target,
        0 <= start <= s.len(),
    ensures
        region_documents(s, format.separator_bytes(), regions_from(format, s, target, start))
            == documents(s, format.separator_bytes(), start, s.len() as int),
    decreases s.len() - start,
{
    let sep = format.separator_bytes();
    let len = s.len() as int;
    let v = regions_from(format, s, target, start);
    let none = Seq::<(int, int)>::empty();
    if start < len {
        lemma_first_from(s, sep, start + target, len);
        let cut = if start + target < len {
            region_end(format, s, start + target)
        } else {
            None
        };
        match cut {
            Some((e, next)) => {
                let rest = regions_from(format, s, target, next);
                assert(v =~= seq![(start, e)] + rest);
                assert(v.drop_first() =~= rest);
                lemma_regions_text(format, s, target, next);
                law_documents_divide(s, sep, start, e, len);
            },
            None => {
                assert(v =~= seq![(start, len)]);
                assert(v.drop_first() =~= none);
                assert(region_documents(s, sep, none) =~= none);
                assert(documents(s, sep, start, len) + none =~= documents(s, sep, start, len));
            },
        }
    }
}

/// The documents of the regions of a text, one region after the other, are
/// the documents of the whole.
pub proof fn law_regions_hold_all_documents(format: DocFormat, s: Seq<u8>, target: int)
    requires
        format is Text,
        unbordered(format.separator_bytes()),
        0 <= target,
    ensures
        region_documents(s, format.separator_bytes(), regions(format, s, target)) == documents(
            s,
            format.separator_bytes(),
            0,
            s.len() as int,
        ),
{
    let sep = format.separator_bytes();
    let none = Seq::<(int, int)>::empty();
    if s.len() == 0 || sep.len() == 0 {
        let v = seq![(0int, s.len() as int)];
        assert(v.drop_first() =~= none);
        assert(region_documents(s, sep, none) =~= none);
        assert(region_documents(s, sep, v) =~= documents(s, sep, 0, s.len() as int));
    } else {
        lemma_regions_text(format, s, target, 0);
    }
}

/// The lines of regions, region by region.
pub open spec fn region_lines(s: Seq<u8>, v: Seq<(int, int)>) -> Seq<(int, int)>
    decreases v.len(),
{
    if v.len() == 0 {
        Seq::empty()
    } else {
        lines_from(s, v[0].0, v[0].1) + region_lines(s, v.drop_first())
    }
}

proof fn lemma_regions_lines(format: DocFormat, s: Seq<u8>, target: int, start: int)
    requires
        format is Jsonl,
        0 <= target,
        0 <= start <= s.len(),
    ensures
        region_lines(s, regions_from(format, s, target, start)) == lines_from(
            s,
            start,
            s.len() as int,
        ),
    decreases s.len() - start,
{
    let nl = seq![0x0Au8];
    let len = s.len() as int;
    let v = regions_from(format, s, target, start);
    let none = Seq::<(int, int)>::empty();
    if start < len {
        lemma_first_from(s, nl, start + target, len);
        let cut = if start + target < len {
            region_end(format, s, start + target)
        } else {
            None
        };
        match cut {
            Some((e, next)) => {
                let rest = regions_from(format, s, target, next);
                assert(v =~= seq![(start, e)] + rest);
                assert(v.drop_first() =~= rest);
                lemma_regions_lines(format, s, target, next);
                assert(s.subrange(e - 1, e)[0] == s[e - 1]);
                law_lines_divide(s, start, e, len);
            },
            None => {
                assert(v =~= seq![(start, len)]);
                assert(v.drop_first() =~= none);
                assert(region_lines(s, none) =~= none);
                assert(lines_from(s, start, len) + none =~= lines_from(s, start, len));
            },
        }
    }
}

/// The lines of the regions of a JSON Lines file, one region after the other,
/// are the lines of the whole.
pub proof fn law_regions_hold_all_lines(format: DocFormat, s: Seq<u8>, target: int)
    requires
        format is Jsonl,
        0 <= target,
    ensures
        region_lines(s, regions(format, s, target)) == lines_from(s, 0, s.len() as int),
{
    if s.len() == 0 {
        let v = seq![(0int, 0int)];
        assert(v.drop_first() =~= Seq::<(int, int)>::empty());
        assert(lines_from(s, 0, 0) =~= Seq::<(int, int)>::empty());
        assert(region_lines(s, v.drop_first()) =~= Seq::<(int, int)>::empty());
        assert(region_lines(s, v) =~= Seq::<(int, int)>::empty());
    } else {
        lemma_regions_lines(format, s, target, 0);
    }
}

} // verus!
