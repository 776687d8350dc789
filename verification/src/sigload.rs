//! Signature loading and matching: thin adapters over the pattern-matching
//! library. A signature source is either a compiled binary form (`.sig`), a
//! textual pattern form (`.pat`), or a gzip-compressed textual form
//! (`.pat.gz`) that is decompressed before parsing.

use vstd::prelude::*;

verus! {

/// Failure to obtain signatures from a source.
#[derive(Clone, Copy, PartialEq, Eq, Structural, Debug)]
pub enum SignatureError {
    /// The source text is not a well-formed pattern file.
    Parse,
    /// The compressed source is not a well-formed gzip stream of text.
    Gzip,
    /// The source text holds a tail-byte offset field of sixteen or more
    /// hex digits; such an offset could overflow the matcher's probe
    /// index, so the source is rejected.
    TailOffset,
}

/// Whether `c` is an ASCII hex digit.
pub open spec fn hex_digit(c: char) -> bool {
    (48 <= c as u32 && c as u32 <= 57) || (97 <= c as u32 && c as u32 <= 102) || (65 <= c as u32
        && c as u32 <= 70)
}

/// Whether every run of hex digits that immediately follows a `(` in the
/// text is at most fifteen digits long. Tail-byte offsets in the pattern
/// format are exactly such runs, so on text accepted here every parsed
/// tail-byte offset is below 2^60 and the matcher's probe index cannot
/// overflow.
pub open spec fn tail_runs_short(s: Seq<char>) -> bool {
    forall|i: int|
        0 <= i && i + 16 < s.len() && (#[trigger] s[i]) == '(' ==> exists|j: int|
            i + 1 <= j <= i + 16 && !hex_digit(#[trigger] s[j])
}

/// Whether `c` is an ASCII hex digit.
pub fn is_hex_digit_char(c: char) -> (r: bool)
    ensures
        r == hex_digit(c),
{
    let u = c as u32;
    (48 <= u && u <= 57) || (97 <= u && u <= 102) || (65 <= u && u <= 70)
}

/// Whether every hex-digit run following a `(` in the text is short
/// enough for safe tail-byte matching.
pub fn pat_text_tail_offsets_short(text: &str) -> (r: bool)
    ensures
        r == tail_runs_short(text@),
{
    let n = text.unicode_len();
    let mut i: usize = 0;
    while i < n
        invariant
            n == text@.len(),
            0 <= i <= n,
            forall|k: int|
                0 <= k < i && k + 16 < text@.len() && (#[trigger] text@[k]) == '(' ==> exists|j: int|
                    k + 1 <= j <= k + 16 && !hex_digit(#[trigger] text@[j]),
        decreases n - i,
    {
        if text.get_char(i) == '(' && n - i > 16 {
            let mut j: usize = 1;
            let mut broken = false;
            while j <= 16 && !broken
                invariant
                    1 <= j <= 17,
                    i + 16 < n,
                    n == text@.len(),
                    !broken ==> forall|t: int| 1 <= t < j ==> hex_digit(#[trigger] text@[i + t]),
                    broken ==> exists|t: int|
                        i + 1 <= t <= i + 16 && !hex_digit(#[trigger] text@[t]),
                decreases (if broken {
                    0int
                } else {
                    1int
                }), 17 - j,
            {
                if !is_hex_digit_char(text.get_char(i + j)) {
                    proof {
                        assert(!hex_digit(text@[i + j]));
                    }
                    broken = true;
                } else {
                    j += 1;
                }
            }
            if !broken {
                proof {
                    assert(text@[i as int] == '(');
                    assert(forall|t: int| 1 <= t < 17 ==> hex_digit(#[trigger] text@[i + t]));
                    assert forall|j2: int| i + 1 <= j2 <= i + 16 implies hex_digit(
                        #[trigger] text@[j2],
                    ) by {
                        assert(text@[i + (j2 - i)] == text@[j2]);
                    }
                    assert(!tail_runs_short(text@));
                }
                return false;
            }
        }
        i += 1;
    }
    true
}

#[verifier::external_type_specification]
#[verifier::external_body]
pub struct ExFlirtSignature(lancelot_flirt::FlirtSignature);

/// The signatures that parsing a textual pattern source yields, or `None`
/// when the text is not a well-formed pattern file.
pub uninterp spec fn pat_signatures_of(text: Seq<char>) -> Option<
    Seq<lancelot_flirt::FlirtSignature>,
>;

/// The text a gzip stream decompresses to, or `None` when the bytes are not
/// a well-formed gzip stream of text.
pub uninterp spec fn gunzip_text_of(data: Seq<u8>) -> Option<Seq<char>>;

/// Whether the signature's tail-byte probe offsets are all far enough
/// below the address-space limit that the matcher's probe-index sum
/// cannot overflow.
pub uninterp spec fn tail_offsets_bounded(sig: lancelot_flirt::FlirtSignature) -> bool;

/// The public name a signature carries at offset zero, if any.
pub uninterp spec fn signature_name_of(sig: lancelot_flirt::FlirtSignature) -> Option<Seq<char>>;

/// The function size a signature records.
pub uninterp spec fn signature_size_of(sig: lancelot_flirt::FlirtSignature) -> u64;

/// Relies on lancelot_flirt::pat::parse: the parse result is a function of
/// the text alone; it returns `Err` exactly on malformed pattern text.
/// Tail-byte offsets are parsed from the maximal hex-digit run after each
/// `(`, so when every such run is short the parsed offsets are bounded.
#[verifier::external_body]
fn parse_pat_text(text: &str) -> (r: Result<
    Vec<lancelot_flirt::FlirtSignature>,
    SignatureError,
>)
    ensures
        match r {
            Ok(sigs) => pat_signatures_of(text@) == Some(sigs@) && (tail_runs_short(text@)
                ==> forall|k: int|
                0 <= k < sigs@.len() ==> tail_offsets_bounded(#[trigger] sigs@[k])),
            Err(e) => pat_signatures_of(text@) is None && e == SignatureError::Parse,
        },
{
    match lancelot_flirt::pat::parse(text) {
        Ok(sigs) => Ok(sigs),
        Err(_) => Err(SignatureError::Parse),
    }
}

/// Relies on flate2::read::GzDecoder, driven by std's Read::read_to_string:
/// the decompressed text is a function of the bytes alone; it fails exactly
/// when the bytes are not a gzip stream of valid text.
#[verifier::external_body]
fn gunzip_to_text(data: &[u8]) -> (r: Result<String, SignatureError>)
    ensures
        match r {
            Ok(text) => gunzip_text_of(data@) == Some(text@),
            Err(e) => gunzip_text_of(data@) is None && e == SignatureError::Gzip,
        },
{
    let mut decoder = flate2::read::GzDecoder::new(data);
    let mut contents = String::new();
    match std::io::Read::read_to_string(&mut decoder, &mut contents) {
        Ok(_) => Ok(contents),
        Err(_) => Err(SignatureError::Gzip),
    }
}

/// The wildcarded byte pattern a signature must match at the start of a
/// buffer: one entry per pattern position, `None` at wildcard positions.
pub uninterp spec fn pattern_of(sig: lancelot_flirt::FlirtSignature) -> Seq<Option<u8>>;

/// Whether a signature's checksum test accepts the buffer.
pub uninterp spec fn crc16_ok_of(sig: lancelot_flirt::FlirtSignature, buf: Seq<u8>) -> bool;

/// Whether a signature's tail-byte test accepts the buffer.
pub uninterp spec fn tail_ok_of(sig: lancelot_flirt::FlirtSignature, buf: Seq<u8>) -> bool;

/// Whether a signature's footer test accepts the buffer.
pub uninterp spec fn footer_ok_of(sig: lancelot_flirt::FlirtSignature, buf: Seq<u8>) -> bool;

/// Relies on the lancelot_flirt::FlirtSignature::byte_sig field: each
/// element is either a concrete byte or a wildcard.
#[verifier::external_body]
fn signature_pattern(sig: &lancelot_flirt::FlirtSignature) -> (r: Vec<Option<u8>>)
    ensures
        r@ == pattern_of(*sig),
{
    sig.byte_sig.0.iter().map(
        |e| match e {
            lancelot_flirt::SigElement::Byte(v) => Some(*v),
            lancelot_flirt::SigElement::Wildcard => None,
        },
    ).collect()
}

/// Relies on lancelot_flirt::FlirtSignature::match_crc16: the checksum test
/// is a function of the signature and the buffer alone.
#[verifier::external_body]
fn check_crc16(sig: &lancelot_flirt::FlirtSignature, buf: &[u8]) -> (r: bool)
    ensures
        r == crc16_ok_of(*sig, buf@),
{
    sig.match_crc16(buf)
}

/// Relies on lancelot_flirt::FlirtSignature::match_tail_bytes: the
/// tail-byte test is a function of the signature and the buffer alone.
/// The call sums the signature's pattern size, checksum length and a
/// tail-byte offset to form its probe index, which overflows — aborting a
/// debug build — on an extreme offset; the precondition keeps such
/// signatures out.
#[verifier::external_body]
fn check_tail_bytes(sig: &lancelot_flirt::FlirtSignature, buf: &[u8]) -> (r: bool)
    requires
        tail_offsets_bounded(*sig),
    ensures
        r == tail_ok_of(*sig, buf@),
{
    sig.match_tail_bytes(buf)
}

/// Relies on lancelot_flirt::FlirtSignature::match_footer: the footer test
/// is a function of the signature and the buffer alone.
#[verifier::external_body]
fn check_footer(sig: &lancelot_flirt::FlirtSignature, buf: &[u8]) -> (r: bool)
    ensures
        r == footer_ok_of(*sig, buf@),
{
    sig.match_footer(buf)
}

/// Relies on lancelot_flirt::FlirtSignature::get_name: the name at offset
/// zero is a function of the signature alone.
#[verifier::external_body]
fn signature_name(sig: &lancelot_flirt::FlirtSignature) -> (r: Option<String>)
    ensures
        match r {
            Some(n) => signature_name_of(*sig) == Some(n@),
            None => signature_name_of(*sig) is None,
        },
{
    match sig.get_name() {
        Some(n) => Some(n.to_string()),
        None => None,
    }
}

/// Relies on the lancelot_flirt::FlirtSignature::size_of_function field.
#[verifier::external_body]
fn signature_size(sig: &lancelot_flirt::FlirtSignature) -> (r: u64)
    ensures
        r == signature_size_of(*sig),
{
    sig.size_of_function
}

/// Load signatures from the textual pattern form. A text carrying an
/// oversized tail-byte offset field is rejected before parsing, so every
/// loaded signature is safe to match.
pub fn load_signatures_pat(text: &str) -> (r: Result<
    Vec<lancelot_flirt::FlirtSignature>,
    SignatureError,
>)
    ensures
        match r {
            Ok(sigs) => {
                &&& tail_runs_short(text@)
                &&& pat_signatures_of(text@) == Some(sigs@)
                &&& forall|k: int|
                    0 <= k < sigs@.len() ==> tail_offsets_bounded(#[trigger] sigs@[k])
            },
            Err(SignatureError::TailOffset) => !tail_runs_short(text@),
            Err(SignatureError::Parse) => tail_runs_short(text@) && pat_signatures_of(
                text@,
            ) is None,
            Err(_) => false,
        },
{
    if !pat_text_tail_offsets_short(text) {
        return Err(SignatureError::TailOffset);
    }
    parse_pat_text(text)
}

/// What parsing a gzip-compressed textual pattern source yields: the
/// parse of the decompressed text, or nothing when decompression fails.
/// The loader screens the decompressed text's tail-byte offset fields
/// before parsing.
pub open spec fn pat_gz_signatures_of(data: Seq<u8>) -> Option<
    Seq<lancelot_flirt::FlirtSignature>,
> {
    match gunzip_text_of(data) {
        None => None,
        Some(text) => pat_signatures_of(text),
    }
}

/// Load signatures from the gzip-compressed textual pattern form:
/// decompress, screen the text's tail-byte offset fields, and parse.
pub fn load_signatures_pat_gz(data: &[u8]) -> (r: Result<
    Vec<lancelot_flirt::FlirtSignature>,
    SignatureError,
>)
    ensures
        match r {
            Ok(sigs) => gunzip_text_of(data@) matches Some(t) && tail_runs_short(t)
                && pat_signatures_of(t) == Some(sigs@) && (forall|k: int|
                0 <= k < sigs@.len() ==> tail_offsets_bounded(#[trigger] sigs@[k])),
            Err(SignatureError::Gzip) => gunzip_text_of(data@) is None,
            Err(SignatureError::TailOffset) => gunzip_text_of(data@) matches Some(t)
                && !tail_runs_short(t),
            Err(SignatureError::Parse) => gunzip_text_of(data@) matches Some(t) && tail_runs_short(
                t,
            ) && pat_signatures_of(t) is None,
        },
{
    match gunzip_to_text(data) {
        Err(e) => Err(e),
        Ok(text) => load_signatures_pat(text.as_str()),
    }
}

/// Equivalent textual and compressed pattern sources load to equal
/// signature sets: when compressed bytes decompress to exactly a given
/// text, loading the compressed form yields the same parse result as
/// loading the text itself — the round trip through compression is
/// lossless.
pub proof fn lemma_pat_gz_round_trip(text: Seq<char>, data: Seq<u8>)
    requires
        gunzip_text_of(data) == Some(text),
    ensures
        pat_gz_signatures_of(data) == pat_signatures_of(text),
{
}

/// Whether `s` ends with `suffix`.
pub open spec fn ends_with_spec(s: Seq<char>, suffix: Seq<char>) -> bool {
    suffix.len() <= s.len() && s.skip(s.len() - suffix.len()) == suffix
}

/// Whether `s` ends with `suffix`.
pub fn str_ends_with(s: &str, suffix: &str) -> (r: bool)
    ensures
        r == ends_with_spec(s@, suffix@),
{
    let n = s.unicode_len();
    let m = suffix.unicode_len();
    if m > n {
        return false;
    }
    let off = n - m;
    let mut j: usize = 0;
    while j < m
        invariant
            m <= n,
            off == n - m,
            n == s@.len(),
            m == suffix@.len(),
            forall|k: int| 0 <= k < j ==> s@[off + k] == suffix@[k],
        decreases m - j,
    {
        if s.get_char(off + j) != suffix.get_char(j) {
            proof {
                assert(s@.skip(off as int)[j as int] == s@[off + j]);
            }
            return false;
        }
        j += 1;
    }
    proof {
        assert forall|k: int| 0 <= k < m implies s@.skip(off as int)[k] == suffix@[k] by {
            assert(s@.skip(off as int)[k] == s@[off + k]);
        }
        assert(s@.skip(off as int) =~= suffix@);
    }
    true
}

/// The form of a signature source, judged from its path suffix.
#[derive(Clone, Copy, PartialEq, Eq, Structural, Debug)]
pub enum SignatureKind {
    /// A compiled binary signature file (`.sig`).
    Sig,
    /// A textual pattern file (`.pat`).
    Pat,
    /// A gzip-compressed textual pattern file (`.pat.gz`).
    PatGz,
    /// None of the recognised suffixes.
    Unknown,
}

/// The form of a signature source, judged from its path suffix.
pub open spec fn signature_source_kind_spec(path: Seq<char>) -> SignatureKind {
    if ends_with_spec(path, ".sig"@) {
        SignatureKind::Sig
    } else if ends_with_spec(path, ".pat"@) {
        SignatureKind::Pat
    } else if ends_with_spec(path, ".pat.gz"@) {
        SignatureKind::PatGz
    } else {
        SignatureKind::Unknown
    }
}

/// Judge the form of a signature source from its path suffix.
pub fn signature_source_kind(path: &str) -> (r: SignatureKind)
    ensures
        r == signature_source_kind_spec(path@),
{
    if str_ends_with(path, ".sig") {
        SignatureKind::Sig
    } else if str_ends_with(path, ".pat") {
        SignatureKind::Pat
    } else if str_ends_with(path, ".pat.gz") {
        SignatureKind::PatGz
    } else {
        SignatureKind::Unknown
    }
}

/// Whether the pattern accepts the start of the buffer: the buffer is at
/// least as long as the pattern, and every non-wildcard position agrees.
pub open spec fn prefix_matches_spec(pattern: Seq<Option<u8>>, buf: Seq<u8>) -> bool {
    pattern.len() <= buf.len() && forall|i: int|
        0 <= i < pattern.len() ==> match #[trigger] pattern[i] {
            None => true,
            Some(b) => buf[i] == b,
        }
}

/// Whether the pattern accepts the start of the buffer.
pub fn prefix_match(pattern: &Vec<Option<u8>>, buf: &[u8]) -> (r: bool)
    ensures
        r == prefix_matches_spec(pattern@, buf@),
{
    if pattern.len() > buf.len() {
        return false;
    }
    let mut i: usize = 0;
    while i < pattern.len()
        invariant
            0 <= i <= pattern@.len(),
            pattern@.len() <= buf@.len(),
            forall|k: int|
                0 <= k < i ==> match #[trigger] pattern@[k] {
                    None => true,
                    Some(b) => buf@[k] == b,
                },
        decreases pattern@.len() - i,
    {
        if let Some(b) = pattern[i] {
            if buf[i] != b {
                return false;
            }
        }
        i += 1;
    }
    true
}

/// Whether a signature matches the buffer: its wildcarded byte pattern
/// accepts the buffer's start, and its checksum, tail-byte and footer tests
/// all accept the buffer.
pub open spec fn is_match_spec(sig: lancelot_flirt::FlirtSignature, buf: Seq<u8>) -> bool {
    &&& prefix_matches_spec(pattern_of(sig), buf)
    &&& crc16_ok_of(sig, buf)
    &&& tail_ok_of(sig, buf)
    &&& footer_ok_of(sig, buf)
}

/// Whether a signature matches the buffer.
pub fn signature_is_match(sig: &lancelot_flirt::FlirtSignature, buf: &[u8]) -> (r: bool)
    requires
        tail_offsets_bounded(*sig),
    ensures
        r == is_match_spec(*sig, buf@),
{
    let pattern = signature_pattern(sig);
    if !prefix_match(&pattern, buf) {
        return false;
    }
    if !check_crc16(sig, buf) {
        return false;
    }
    if !check_tail_bytes(sig, buf) {
        return false;
    }
    check_footer(sig, buf)
}

/// The (name, size) content of each matching signature, in signature
/// order — the matcher's native match order.
pub open spec fn match_entry_views(sigs: Seq<lancelot_flirt::FlirtSignature>, buf: Seq<u8>) -> Seq<
    (Option<Seq<char>>, u64),
>
    decreases sigs.len(),
{
    if sigs.len() == 0 {
        Seq::empty()
    } else {
        let rest = match_entry_views(sigs.drop_last(), buf);
        if is_match_spec(sigs.last(), buf) {
            rest.push((signature_name_of(sigs.last()), signature_size_of(sigs.last())))
        } else {
            rest
        }
    }
}

/// The content of a (name, size) match list: names as character sequences.
pub open spec fn entries_view(es: Seq<(Option<String>, u64)>) -> Seq<(Option<Seq<char>>, u64)> {
    es.map_values(
        |e: (Option<String>, u64)|
            (
                match e.0 {
                    Some(n) => Some(n@),
                    None => None,
                },
                e.1,
            ),
    )
}

/// Run the signature list over a byte buffer: the (name, size) pair of
/// every matching signature, in signature order.
pub fn signature_match_entries(sigs: &Vec<lancelot_flirt::FlirtSignature>, buf: &[u8]) -> (r: Vec<
    (Option<String>, u64),
>)
    requires
        forall|k: int| 0 <= k < sigs@.len() ==> tail_offsets_bounded(#[trigger] sigs@[k]),
    ensures
        entries_view(r@) == match_entry_views(sigs@, buf@),
{
    let mut r: Vec<(Option<String>, u64)> = Vec::new();
    let mut i: usize = 0;
    while i < sigs.len()
        invariant
            0 <= i <= sigs@.len(),
            forall|k: int| 0 <= k < sigs@.len() ==> tail_offsets_bounded(#[trigger] sigs@[k]),
            entries_view(r@) == match_entry_views(sigs@.take(i as int), buf@),
        decreases sigs@.len() - i,
    {
        if signature_is_match(&sigs[i], buf) {
            let name = signature_name(&sigs[i]);
            let size = signature_size(&sigs[i]);
            let ghost prev = r@;
            r.push((name, size));
            proof {
                assert(entries_view(r@) =~= entries_view(prev).push(
                    (signature_name_of(sigs@[i as int]), signature_size_of(sigs@[i as int])),
                ));
            }
        }
        proof {
            assert(sigs@.take(i + 1).drop_last() == sigs@.take(i as int));
            assert(sigs@.take(i + 1).last() == sigs@[i as int]);
        }
        i += 1;
    }
    proof {
        assert(sigs@.take(sigs@.len() as int) == sigs@);
    }
    r
}

} // verus!
