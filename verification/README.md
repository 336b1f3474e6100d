# gigatoken

Byte-pair tokenization of large inputs, verified with Verus: byte-level BPE in
the style of tiktoken, SentencePiece-style BPE with byte fallback, and training
of byte-level merges.

## Layout

`src/` is the library. Every function in it is verified against its contract.

| module | what it holds |
| --- | --- |
| `token`, `heap`, `maps`, `bytes_map`, `search`, `text` | small parts that the rest is built on |
| `pretokenize` | the schemes that cut text into pretokens, the 64-byte batch walker, and cutting documents where no pretoken crosses |
| `bpe` | what a merge computes, the merge loops, the tables and caches, and the byte-level tokenizer |
| `sp` | normalization, symbols and the SentencePiece-style tokenizer, and where its input may be cut |
| `train` | training merges from word counts |
| `load` | building tokenizers from the contents of a `tokenizer.json` file |
| `input` | documents between separators and in JSON Lines, regions of files, streams, pretoken counts |
| `batch` | chunks of documents and files, and the token rows they give |

`app/` maps and reads files, parses JSON and runs chunks on a thread pool; it
hands plain values to the library.

## What is proved

- The pretokens of a text are given by a specification of each scheme's pattern;
  they partition the text, and the batch walker finds the same ones.
- A merge gives what the rules give one at a time, lowest rank first, whichever
  loop, table or cache it went through.
- Decoding an encoded text gives the text back, for tokenizers that do not
  normalize or strip it and have tokens for all of it.
- Texts cut at the positions that the library picks encode, part by part, to the
  tokens of the whole, whether or not they are normalized; so do the regions of a
  file. The conditions under which this holds stand in the laws.
- A memory budget bounds every cache, and does not change what is emitted.
- Training picks a most frequent pair at each step, and the counts it keeps are
  the counts of the words as they stand.

Public proof functions whose names start with `law_` state these.

## What is trusted

Calls into other crates stand behind small wrappers marked
`#[verifier::external_body]`, each with a comment on what it claims:
`memchr` (search), `aho-corasick` (added tokens), `icu` (character properties
and normalization form C), `spm_precompiled` (charsmaps), `base64`, `sonic-rs`
(a field of a JSON line), `priority-queue` (training), and from `std`
`from_utf8`, `from_utf8_lossy` and `Arc::clone`.
