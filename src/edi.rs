//! Separator detection and segment splitting for EDI documents.
//!
//! Supports ANSI X12 and EDIFACT. Detection reads the fixed-position header
//! of a document; splitting cuts the document's bytes into segments.
use vstd::prelude::*;
use vstd::slice::slice_subrange;
use vstd::string::StringSliceAdditionalSpecFns;
use vstd::utf8::*;

verus! {

/// Separator configuration of an EDI document.
#[derive(Debug, Clone, PartialEq)]
pub struct Sep {
    /// Element separator (field separator)
    pub element: char,
    /// Segment separator (line terminator)
    pub segment: char,
    /// Subelement separator (composite element separator)
    pub subelement: char,
    /// Text between the ISA header and the GS segment (or UNA and UNB)
    pub suffix: String,
    /// Release character (EDIFACT uses `?`)
    pub release: Option<char>,
    /// Escape character (unused)
    pub escape: Option<char>,
    /// Repetition separator
    pub repetition: Option<char>,
    /// Whether CRLF is inserted every 80 characters
    pub hard_wrap: bool,
}

impl Sep {
    /// Create a separator configuration with the required fields.
    pub fn new(element: char, segment: char, subelement: char, suffix: String) -> (r: Sep)
        ensures
            r.element == element,
            r.segment == segment,
            r.subelement == subelement,
            r.suffix@ == suffix@,
            r.release.is_none(),
            r.escape.is_none(),
            r.repetition.is_none(),
            !r.hard_wrap,
    {
        Sep {
            element,
            segment,
            subelement,
            suffix,
            release: None,
            escape: None,
            repetition: None,
            hard_wrap: false,
        }
    }
}

/// The text that lossy UTF-8 decoding gives for a byte sequence.
pub uninterp spec fn lossy_text(b: Seq<u8>) -> Seq<char>;

/// Relies on String::from_utf8_lossy: valid UTF-8 decodes as itself, and
/// invalid sequences are replaced.
#[verifier::external_body]
fn text_of(b: &[u8]) -> (r: String)
    ensures
        r@ == lossy_text(b@),
        valid_utf8(b@) ==> r@ == decode_utf8(b@),
{
    String::from_utf8_lossy(b).into_owned()
}

/// The text of a byte sequence: its UTF-8 decoding where the bytes are valid
/// UTF-8, else the lossy decoding.
pub open spec fn decoded(b: Seq<u8>) -> Seq<char> {
    if valid_utf8(b) {
        decode_utf8(b)
    } else {
        lossy_text(b)
    }
}

/// Bytes that are all ASCII.
pub open spec fn ascii_bytes(b: Seq<u8>) -> bool {
    forall|i: int| 0 <= i < b.len() ==> b[i] < 128
}

/// ASCII bytes read as characters, one for one.
pub open spec fn ascii_text(b: Seq<u8>) -> Seq<char> {
    Seq::new(b.len(), |i: int| b[i] as char)
}

/// ASCII bytes are valid UTF-8 and decode to the same characters.
pub proof fn lemma_ascii_decoded(b: Seq<u8>)
    requires
        ascii_bytes(b),
    ensures
        valid_utf8(b),
        decoded(b) == ascii_text(b),
    decreases b.len(),
{
    if b.len() > 0 {
        let x = b[0];
        assert(x & 0x7f == x) by (bit_vector)
            requires
                x < 128,
        ;
        let rest = b.subrange(1, b.len() as int);
        assert(pop_first_scalar(b) == rest);
        lemma_ascii_decoded(rest);
        assert(ascii_text(b) =~= seq![x as char] + ascii_text(rest));
    } else {
        assert(ascii_text(b) =~= Seq::<char>::empty());
    }
}

// ---------------------------------------------------------------------------
// Searching
// ---------------------------------------------------------------------------

/// Whether `pat` occurs in `b` at offset `at`.
pub open spec fn occurs_at(b: Seq<u8>, pat: Seq<u8>, at: int) -> bool {
    0 <= at && at + pat.len() <= b.len() && b.subrange(at, at + pat.len()) == pat
}

/// The first offset at or after `from` where `pat` occurs in `b`.
pub open spec fn find_from(b: Seq<u8>, pat: Seq<u8>, from: int) -> Option<int>
    decreases b.len() as int - from,
{
    if from < 0 || from >= b.len() || from + pat.len() > b.len() {
        None
    } else if occurs_at(b, pat, from) {
        Some(from)
    } else {
        find_from(b, pat, from + 1)
    }
}

proof fn lemma_find_from_found(b: Seq<u8>, pat: Seq<u8>, from: int)
    requires
        find_from(b, pat, from) is Some,
    ensures
        from <= find_from(b, pat, from).unwrap(),
        occurs_at(b, pat, find_from(b, pat, from).unwrap()),
    decreases b.len() as int - from,
{
    if from < 0 || from >= b.len() || from + pat.len() > b.len() {
    } else if occurs_at(b, pat, from) {
    } else {
        lemma_find_from_found(b, pat, from + 1);
    }
}

/// First offset in `b[from..end]` where `pat` occurs entirely inside that range.
fn find_in(b: &[u8], pat: &[u8], from: usize, end: usize) -> (r: Option<usize>)
    requires
        from <= end <= b@.len(),
    ensures
        match r {
            Some(i) => find_from(b@.take(end as int), pat@, from as int) == Some(i as int),
            None => find_from(b@.take(end as int), pat@, from as int) is None,
        },
{
    let ghost w = b@.take(end as int);
    let mut i: usize = from;
    while i < end && pat.len() <= end - i
        invariant
            from <= i <= end,
            end <= b@.len(),
            w == b@.take(end as int),
            find_from(w, pat@, from as int) == find_from(w, pat@, i as int),
        decreases end - i,
    {
        let mut j: usize = 0;
        let mut same = true;
        while j < pat.len()
            invariant
                0 <= j <= pat@.len(),
                i + pat@.len() <= end,
                end <= b@.len(),
                same == (forall|k: int| 0 <= k < j ==> b@[i + k] == pat@[k]),
            decreases pat@.len() - j,
        {
            if b[i + j] != pat[j] {
                same = false;
            }
            j = j + 1;
        }
        assert(occurs_at(w, pat@, i as int) == same) by {
            if same {
                assert(w.subrange(i as int, i + pat@.len()) =~= pat@);
            }
            if occurs_at(w, pat@, i as int) {
                assert forall|k: int| 0 <= k < pat@.len() implies b@[i + k] == pat@[k] by {
                    assert(w.subrange(i as int, i + pat@.len())[k] == pat@[k]);
                }
            }
        }
        if same {
            return Some(i);
        }
        i = i + 1;
    }
    None
}

// ---------------------------------------------------------------------------
// Detection
// ---------------------------------------------------------------------------

/// Offsets of the ISA header that all hold the element separator;
/// 103 is the official element separator position.
pub open spec fn isa_sep_positions() -> Seq<int> {
    seq![3, 6, 17, 20, 31, 34, 50, 53, 69, 76, 81, 83, 89, 99, 101, 103]
}

pub open spec fn starts_with(b: Seq<u8>, p: Seq<u8>) -> bool {
    occurs_at(b, p, 0)
}

pub open spec fn tag_isa() -> Seq<u8> {
    seq!['I' as u8, 'S' as u8, 'A' as u8]
}

pub open spec fn tag_una() -> Seq<u8> {
    seq!['U' as u8, 'N' as u8, 'A' as u8]
}

pub open spec fn tag_unb() -> Seq<u8> {
    seq!['U' as u8, 'N' as u8, 'B' as u8]
}

pub open spec fn tag_gs() -> Seq<u8> {
    seq!['G' as u8, 'S' as u8]
}

pub open spec fn tag_un() -> Seq<u8> {
    seq!['U' as u8, 'N' as u8]
}

/// The document takes the X12 branch: `ISA` and a full header's length.
pub open spec fn is_x12(b: Seq<u8>) -> bool {
    starts_with(b, tag_isa()) && b.len() >= 110
}

/// An X12 header that passes validation: `GS` within offsets 106..110 and
/// the element separator at every fixed position.
pub open spec fn x12_valid(b: Seq<u8>) -> bool {
    &&& is_x12(b)
    &&& find_from(b.take(110), tag_gs(), 106) is Some
    &&& forall|i: int| 0 <= i < 16 ==> b[#[trigger] isa_sep_positions()[i]] == b[3]
}

/// Offset of the first `UN` that lies within offsets 3..13.
pub open spec fn header_un(b: Seq<u8>) -> Option<int> {
    find_from(b.take(13), tag_un(), 3)
}

/// EDIFACT with a `UNA` service string advice.
pub open spec fn is_una(b: Seq<u8>) -> bool {
    starts_with(b, tag_una()) && b.len() >= 13 && header_un(b) is Some
}

/// EDIFACT that opens directly with `UNB`.
pub open spec fn is_unb(b: Seq<u8>) -> bool {
    starts_with(b, tag_unb()) && b.len() >= 13 && header_un(b) is Some
}

/// CRLF after every 80 data characters.
pub open spec fn hard_wrapped(b: Seq<u8>) -> bool {
    &&& b.len() >= 246
    &&& b[80] == 13 && b[81] == 10
    &&& b[162] == 13 && b[163] == 10
    &&& b[244] == 13 && b[245] == 10
}

/// An optional separator: absent where the header holds the "not used" byte.
pub open spec fn optional_sep(b: u8, unused: u8) -> Option<char> {
    if b == unused {
        None
    } else {
        Some(b as char)
    }
}

/// The separators that a valid X12 header gives.
pub open spec fn x12_sep(b: Seq<u8>, s: Sep) -> bool {
    &&& s.element == b[103] as char
    &&& s.subelement == b[104] as char
    &&& s.segment == b[105] as char
    &&& s.suffix@ == decoded(b.subrange(106, find_from(b, tag_gs(), 106).unwrap_or(106)))
    &&& s.repetition == optional_sep(b[82], ('U' as u8))
    &&& s.release is None
    &&& s.escape is None
    &&& s.hard_wrap == hard_wrapped(b)
}

/// Where the suffix after a `UNA` block ends: at the located `UN`, or empty
/// when that lies inside the block.
pub open spec fn una_suffix_end(b: Seq<u8>) -> int {
    let un = header_un(b).unwrap();
    if un >= 9 {
        un
    } else {
        9
    }
}

/// The separators that a `UNA` block gives.
pub open spec fn una_sep(b: Seq<u8>, s: Sep) -> bool {
    &&& s.subelement == b[3] as char
    &&& s.element == b[4] as char
    &&& s.release == Some(b[6] as char)
    &&& s.repetition == optional_sep(b[7], (' ' as u8))
    &&& s.segment == b[8] as char
    &&& s.suffix@ == decoded(b.subrange(9, una_suffix_end(b)))
    &&& s.escape is None
    &&& s.hard_wrap == hard_wrapped(b)
}

/// Bytes between the first segment terminator and the next `UN`.
pub open spec fn unb_suffix(b: Seq<u8>) -> Seq<u8> {
    match find_from(b, seq![('\'' as u8)], 0) {
        Some(p) => match find_from(b, tag_un(), p + 1) {
            Some(u) => b.subrange(p + 1, u),
            None => Seq::empty(),
        },
        None => Seq::empty(),
    }
}

/// The default EDIFACT separators, for a document without `UNA`.
pub open spec fn unb_sep(b: Seq<u8>, s: Sep) -> bool {
    &&& s.element == '+'
    &&& s.subelement == ':'
    &&& s.segment == '\''
    &&& s.release == Some('?')
    &&& s.repetition == Some('*')
    &&& s.suffix@ == decoded(unb_suffix(b))
    &&& s.escape is None
    &&& s.hard_wrap == hard_wrapped(b)
}

/// Whether detection accepts the document.
pub open spec fn detects(b: Seq<u8>) -> bool {
    x12_valid(b) || is_una(b) || is_unb(b)
}

/// What detection returns, as a relation between document and result.
pub open spec fn detected(b: Seq<u8>, r: Option<Sep>) -> bool {
    &&& (r is Some <==> detects(b))
    &&& x12_valid(b) ==> x12_sep(b, r.unwrap())
    &&& is_una(b) ==> una_sep(b, r.unwrap())
    &&& is_unb(b) ==> unb_sep(b, r.unwrap())
}

/// Whether `b` begins with `p`.
fn has_prefix(b: &[u8], p: &[u8]) -> (r: bool)
    ensures
        r == starts_with(b@, p@),
{
    if p.len() > b.len() {
        return false;
    }
    let mut j: usize = 0;
    while j < p.len()
        invariant
            0 <= j <= p@.len(),
            p@.len() <= b@.len(),
            forall|k: int| 0 <= k < j ==> b@[k] == p@[k],
        decreases p@.len() - j,
    {
        if b[j] != p[j] {
            assert(!(b@.subrange(0, p@.len() as int) =~= p@)) by {
                assert(b@.subrange(0, p@.len() as int)[j as int] != p@[j as int]);
            }
            return false;
        }
        j = j + 1;
    }
    assert(b@.subrange(0, p@.len() as int) =~= p@);
    true
}

/// Mark the separator as hard-wrapped when CRLF follows every 80 characters.
fn detect_hard_wrap(b: &[u8], sep: &mut Sep)
    ensures
        final(sep).hard_wrap == (old(sep).hard_wrap || hard_wrapped(b@)),
        final(sep).element == old(sep).element,
        final(sep).segment == old(sep).segment,
        final(sep).subelement == old(sep).subelement,
        final(sep).suffix == old(sep).suffix,
        final(sep).release == old(sep).release,
        final(sep).escape == old(sep).escape,
        final(sep).repetition == old(sep).repetition,
{
    if b.len() >= 246 && b[80] == 13 && b[81] == 10 && b[162] == 13 && b[163] == 10
        && b[244] == 13 && b[245] == 10 {
        sep.hard_wrap = true;
    }
}

proof fn lemma_heads_exclusive(b: Seq<u8>)
    ensures
        !(starts_with(b, tag_isa()) && starts_with(b, tag_una())),
        !(starts_with(b, tag_isa()) && starts_with(b, tag_unb())),
        !(starts_with(b, tag_una()) && starts_with(b, tag_unb())),
{
    if starts_with(b, tag_isa()) && starts_with(b, tag_una()) {
        assert(b.subrange(0, 3)[0] == tag_isa()[0]);
        assert(b.subrange(0, 3)[0] == tag_una()[0]);
    }
    if starts_with(b, tag_isa()) && starts_with(b, tag_unb()) {
        assert(b.subrange(0, 3)[0] == tag_isa()[0]);
        assert(b.subrange(0, 3)[0] == tag_unb()[0]);
    }
    if starts_with(b, tag_una()) && starts_with(b, tag_unb()) {
        assert(b.subrange(0, 3)[2] == tag_una()[2]);
        assert(b.subrange(0, 3)[2] == tag_unb()[2]);
    }
}

/// Detect ANSI X12 separators from an ISA header.
fn detect_x12(b: &[u8]) -> (r: Option<Sep>)
    requires
        is_x12(b@),
    ensures
        r is Some <==> x12_valid(b@),
        r is Some ==> x12_sep(b@, r.unwrap()),
{
    // The next segment tag must sit right after the 106-byte header.
    let gs: [u8; 2] = ['G' as u8, 'S' as u8];
    assert(gs@ =~= tag_gs());
    if find_in(b, gs.as_slice(), 106, 110).is_none() {
        return None;
    }
    let positions: [usize; 16] = [3, 6, 17, 20, 31, 34, 50, 53, 69, 76, 81, 83, 89, 99, 101, 103];
    assert(forall|i: int| 0 <= i < 16 ==> positions@[i] as int == isa_sep_positions()[i]);
    let first = b[3];
    let mut k: usize = 0;
    while k < 16
        invariant
            0 <= k <= 16,
            first == b@[3],
            b@.len() >= 110,
            forall|i: int| 0 <= i < 16 ==> positions@[i] as int == isa_sep_positions()[i],
            forall|i: int| 0 <= i < k ==> b@[#[trigger] isa_sep_positions()[i]] == b@[3],
        decreases 16 - k,
    {
        let pos = positions[k];
        if b[pos] != first {
            return None;
        }
        k = k + 1;
    }
    assert(b@.take(b@.len() as int) =~= b@);
    let gs_pos = match find_in(b, gs.as_slice(), 106, b.len()) {
        Some(p) => p,
        None => 106,
    };
    proof {
        if find_from(b@, tag_gs(), 106) is Some {
            lemma_find_from_found(b@, tag_gs(), 106);
        }
    }
    let suffix = text_of(slice_subrange(b, 106, gs_pos));
    let mut sep = Sep::new(b[103] as char, b[105] as char, b[104] as char, suffix);
    if b[82] != 'U' as u8 {
        sep.repetition = Some(b[82] as char);
    }
    detect_hard_wrap(b, &mut sep);
    Some(sep)
}

/// Detect EDIFACT separators from a `UNA` block; `un_pos` is where the next
/// segment starts.
fn detect_edifact_una(b: &[u8], un_pos: usize) -> (r: Sep)
    requires
        is_una(b@),
        header_un(b@) == Some(un_pos as int),
    ensures
        una_sep(b@, r),
{
    proof {
        lemma_find_from_found(b@.take(13), tag_un(), 3);
    }
    let end = if un_pos >= 9 { un_pos } else { 9 };
    let suffix = text_of(slice_subrange(b, 9, end));
    let mut sep = Sep::new(b[4] as char, b[8] as char, b[3] as char, suffix);
    sep.release = Some(b[6] as char);
    if b[7] != ' ' as u8 {
        sep.repetition = Some(b[7] as char);
    }
    detect_hard_wrap(b, &mut sep);
    sep
}

/// Default EDIFACT separators, for a document that opens with `UNB`.
fn detect_edifact_no_una(b: &[u8]) -> (r: Sep)
    ensures
        unb_sep(b@, r),
{
    let term: [u8; 1] = ['\'' as u8];
    let un: [u8; 2] = ['U' as u8, 'N' as u8];
    assert(term@ =~= seq![('\'' as u8)]);
    assert(un@ =~= tag_un());
    assert(b@.take(b@.len() as int) =~= b@);
    let suffix = match find_in(b, term.as_slice(), 0, b.len()) {
        Some(p) => {
            proof {
                lemma_find_from_found(b@, term@, 0);
            }
            match find_in(b, un.as_slice(), p + 1, b.len()) {
                Some(u) => {
                    proof {
                        lemma_find_from_found(b@, tag_un(), p + 1);
                    }
                    text_of(slice_subrange(b, p + 1, u))
                },
                None => text_of(slice_subrange(b, 0, 0)),
            }
        },
        None => text_of(slice_subrange(b, 0, 0)),
    };
    assert(b@.subrange(0, 0) =~= Seq::<u8>::empty());
    let mut sep = Sep::new('+', '\'', ':', suffix);
    sep.release = Some('?');
    sep.repetition = Some('*');
    detect_hard_wrap(b, &mut sep);
    sep
}

/// Whether the document opens as an X12 interchange: `ISA` and at least a
/// header's length. Such a document is X12 or nothing.
pub fn is_x12_header(b: &[u8]) -> (r: bool)
    ensures
        r == is_x12(b@),
{
    let isa: [u8; 3] = ['I' as u8, 'S' as u8, 'A' as u8];
    assert(isa@ =~= tag_isa());
    has_prefix(b, isa.as_slice()) && b.len() >= 110
}

/// Detect the EDI format of a document and its separators, from the
/// document's leading bytes.
pub fn detect_bytes(b: &[u8]) -> (r: Option<Sep>)
    ensures
        detected(b@, r),
{
    proof {
        lemma_heads_exclusive(b@);
    }
    let una: [u8; 3] = ['U' as u8, 'N' as u8, 'A' as u8];
    let unb: [u8; 3] = ['U' as u8, 'N' as u8, 'B' as u8];
    let un: [u8; 2] = ['U' as u8, 'N' as u8];
    assert(una@ =~= tag_una());
    assert(unb@ =~= tag_unb());
    assert(un@ =~= tag_un());
    if is_x12_header(b) {
        return detect_x12(b);
    }
    if has_prefix(b, una.as_slice()) && b.len() >= 13 {
        if let Some(pos) = find_in(b, un.as_slice(), 3, 13) {
            return Some(detect_edifact_una(b, pos));
        }
    }
    if has_prefix(b, unb.as_slice()) && b.len() >= 13 {
        if find_in(b, un.as_slice(), 3, 13).is_some() {
            return Some(detect_edifact_no_una(b));
        }
    }
    None
}

/// Detect the EDI format of a text and its separators.
///
/// Supports ANSI X12 (starts with `ISA`), EDIFACT with a `UNA` header and
/// EDIFACT without one (starts with `UNB`). Offsets count bytes.
pub fn detect(text: &str) -> (r: Option<Sep>)
    ensures
        detected(text.spec_bytes(), r),
{
    detect_bytes(text.as_bytes())
}

// ---------------------------------------------------------------------------
// Segmenting
// ---------------------------------------------------------------------------

/// Unicode White_Space, the characters that `str::trim` removes.
pub open spec fn is_white(c: char) -> bool {
    let u = c as u32;
    ||| 0x09 <= u <= 0x0D
    ||| u == 0x20
    ||| u == 0x85
    ||| u == 0xA0
    ||| u == 0x1680
    ||| 0x2000 <= u <= 0x200A
    ||| u == 0x2028
    ||| u == 0x2029
    ||| u == 0x202F
    ||| u == 0x205F
    ||| u == 0x3000
}

pub open spec fn trim_start(s: Seq<char>) -> Seq<char>
    decreases s.len(),
{
    if s.len() > 0 && is_white(s[0]) {
        trim_start(s.drop_first())
    } else {
        s
    }
}

pub open spec fn trim_end(s: Seq<char>) -> Seq<char>
    decreases s.len(),
{
    if s.len() > 0 && is_white(s.last()) {
        trim_end(s.drop_last())
    } else {
        s
    }
}

/// `s` with leading and trailing whitespace removed.
pub open spec fn trim_ws(s: Seq<char>) -> Seq<char> {
    trim_end(trim_start(s))
}

/// Relies on str::trim: leading and trailing White_Space removed.
#[verifier::external_body]
fn trimmed(s: &str) -> (r: String)
    ensures
        r@ == trim_ws(s@),
{
    s.trim().to_string()
}

/// The text of a segment from its raw bytes: decoded, then trimmed.
pub open spec fn segment_text(raw: Seq<u8>) -> Seq<char> {
    trim_ws(decoded(raw))
}

/// Whether the last byte of `buf` (a terminator) is released by the byte
/// before it.
pub open spec fn escaped(sep: Sep, buf: Seq<u8>) -> bool {
    match sep.release {
        Some(c) => buf.len() >= 2 && buf[buf.len() - 2] == c as u8,
        None => false,
    }
}

/// Whether the hard-wrap setting drops byte `b`.
pub open spec fn wrap_dropped(sep: Sep, b: u8) -> bool {
    sep.hard_wrap && (b == 13 || b == 10)
}

/// One byte of input: the new buffer, and the segment that it completes.
pub open spec fn step(sep: Sep, buf: Seq<u8>, b: u8) -> (Seq<u8>, Option<Seq<char>>) {
    if wrap_dropped(sep, b) {
        (buf, None)
    } else if b == sep.segment as u8 && !escaped(sep, buf.push(b)) {
        let t = segment_text(buf.push(b));
        (Seq::empty(), if t.len() > 0 { Some(t) } else { None })
    } else {
        (buf.push(b), None)
    }
}

/// `out` with the segment `o`, if any, appended.
pub open spec fn emit(out: Seq<Seq<char>>, o: Option<Seq<char>>) -> Seq<Seq<char>> {
    match o {
        Some(t) => out.push(t),
        None => out,
    }
}

/// Buffer and emitted segments after reading `bytes` from buffer `buf` with
/// `out` emitted so far.
pub open spec fn scan(sep: Sep, buf: Seq<u8>, out: Seq<Seq<char>>, bytes: Seq<u8>) -> (
    Seq<u8>,
    Seq<Seq<char>>,
)
    decreases bytes.len(),
{
    if bytes.len() == 0 {
        (buf, out)
    } else {
        let (nb, o) = step(sep, buf, bytes[0]);
        scan(sep, nb, emit(out, o), bytes.drop_first())
    }
}

/// The segment that the end of input completes.
pub open spec fn last_text(buf: Seq<u8>) -> Option<Seq<char>> {
    if buf.len() == 0 {
        None
    } else {
        let t = segment_text(buf);
        if t.len() > 0 {
            Some(t)
        } else {
            None
        }
    }
}

/// The segments of a whole document, in order.
pub open spec fn segments(sep: Sep, bytes: Seq<u8>) -> Seq<Seq<char>> {
    let (buf, out) = scan(sep, Seq::empty(), Seq::empty(), bytes);
    emit(out, last_text(buf))
}

/// The text of an optional string.
pub open spec fn opt_view(r: Option<String>) -> Option<Seq<char>> {
    match r {
        Some(s) => Some(s@),
        None => None,
    }
}

/// The texts of a sequence of strings.
pub open spec fn texts(v: Seq<String>) -> Seq<Seq<char>> {
    v.map_values(|s: String| s@)
}

proof fn lemma_scan_append(sep: Sep, buf: Seq<u8>, out: Seq<Seq<char>>, a: Seq<u8>, b: Seq<u8>)
    ensures
        scan(sep, buf, out, a + b) == ({
            let (m, o) = scan(sep, buf, out, a);
            scan(sep, m, o, b)
        }),
    decreases a.len(),
{
    if a.len() == 0 {
        assert(a + b =~= b);
    } else {
        let (nb, o) = step(sep, buf, a[0]);
        assert((a + b).drop_first() =~= a.drop_first() + b);
        lemma_scan_append(sep, nb, emit(out, o), a.drop_first(), b);
    }
}

/// Segmenting state machine: fed one byte at a time, it returns each
/// segment as its terminator arrives.
pub struct EdiDocumentReader {
    sep: Sep,
    buffer: Vec<u8>,
    done: bool,
}

impl EdiDocumentReader {
    /// The separators the reader splits by.
    pub closed spec fn separators(&self) -> Sep {
        self.sep
    }

    /// Bytes of the segment read so far.
    pub closed spec fn pending(&self) -> Seq<u8> {
        self.buffer@
    }

    /// Whether the input has ended or failed.
    pub closed spec fn is_done(&self) -> bool {
        self.done
    }

    /// A reader with an empty buffer.
    pub fn new(sep: Sep) -> (r: EdiDocumentReader)
        ensures
            r.separators() == sep,
            r.pending() == Seq::<u8>::empty(),
            !r.is_done(),
    {
        EdiDocumentReader { sep, buffer: Vec::new(), done: false }
    }

    /// Take one byte of input; returns the segment that it completes, if any.
    pub fn push_byte(&mut self, b: u8) -> (r: Option<String>)
        ensures
            final(self).separators() == old(self).separators(),
            final(self).is_done() == old(self).is_done(),
            old(self).is_done() ==> final(self).pending() == old(self).pending() && r is None,
            !old(self).is_done() ==> (final(self).pending(), opt_view(r)) == step(
                old(self).separators(),
                old(self).pending(),
                b,
            ),
    {
        if self.done {
            return None;
        }
        if self.sep.hard_wrap && (b == 13 || b == 10) {
            return None;
        }
        self.buffer.push(b);
        if b == self.sep.segment as u8 {
            let len = self.buffer.len();
            let escaped = match self.sep.release {
                Some(c) => len >= 2 && self.buffer[len - 2] == c as u8,
                None => false,
            };
            if !escaped {
                let line = trimmed(text_of(self.buffer.as_slice()).as_str());
                self.buffer.clear();
                assert(self.buffer@ =~= Seq::<u8>::empty());
                if !line.as_str().is_empty() {
                    return Some(line);
                }
            }
        }
        None
    }

    /// The input has ended; returns the segment left in the buffer, if any.
    pub fn finish(&mut self) -> (r: Option<String>)
        ensures
            final(self).separators() == old(self).separators(),
            final(self).is_done(),
            old(self).is_done() ==> r is None,
            !old(self).is_done() ==> opt_view(r) == last_text(old(self).pending()),
            !old(self).is_done() ==> final(self).pending() == Seq::<u8>::empty(),
    {
        if self.done {
            return None;
        }
        self.done = true;
        if self.buffer.len() == 0 {
            return None;
        }
        let line = trimmed(text_of(self.buffer.as_slice()).as_str());
        self.buffer.clear();
        assert(self.buffer@ =~= Seq::<u8>::empty());
        if !line.as_str().is_empty() {
            Some(line)
        } else {
            None
        }
    }

    /// The input failed: stop without emitting what is buffered.
    pub fn fail(&mut self)
        ensures
            final(self).separators() == old(self).separators(),
            final(self).pending() == old(self).pending(),
            final(self).is_done(),
    {
        self.done = true;
    }
}

/// Split a whole document into its segments.
pub fn split_segments(sep: Sep, bytes: &[u8]) -> (r: Vec<String>)
    ensures
        texts(r@) == segments(sep, bytes@),
{
    let ghost s = sep;
    let mut reader = EdiDocumentReader::new(sep);
    let mut out: Vec<String> = Vec::new();
    let mut i: usize = 0;
    while i < bytes.len()
        invariant
            0 <= i <= bytes@.len(),
            reader.separators() == s,
            !reader.is_done(),
            (reader.pending(), texts(out@)) == scan(s, Seq::empty(), Seq::empty(), bytes@.take(i as int)),
        decreases bytes@.len() - i,
    {
        proof {
            let t = bytes@.take(i as int);
            assert(bytes@.take(i + 1) =~= t + seq![bytes@[i as int]]);
            lemma_scan_append(s, Seq::empty(), Seq::empty(), t, seq![bytes@[i as int]]);
            let (m, o) = scan(s, Seq::empty(), Seq::empty(), t);
            let (nb, e) = step(s, m, bytes@[i as int]);
            assert(seq![bytes@[i as int]].drop_first() =~= Seq::<u8>::empty());
            assert(scan(s, m, o, seq![bytes@[i as int]]) == scan(s, nb, emit(o, e), Seq::<u8>::empty()));
        }
        let ghost prev = out@;
        if let Some(line) = reader.push_byte(bytes[i]) {
            out.push(line);
            assert(texts(out@) =~= texts(prev).push(line@));
        }
        i = i + 1;
    }
    assert(bytes@.take(bytes@.len() as int) =~= bytes@);
    let ghost prev = out@;
    if let Some(line) = reader.finish() {
        out.push(line);
        assert(texts(out@) =~= texts(prev).push(line@));
    }
    out
}

/// Detect the separators of an in-memory document and split it into its
/// segments.
pub fn read_document_str(text: &str) -> (r: Option<Vec<String>>)
    ensures
        r is Some <==> detects(text.spec_bytes()),
        r is Some ==> exists|s: Sep|
            detected(text.spec_bytes(), Some(s)) && texts(r.unwrap()@) == segments(
                s,
                text.spec_bytes(),
            ),
{
    let bytes = text.as_bytes();
    match detect_bytes(bytes) {
        Some(sep) => {
            let ghost s = sep;
            let r = split_segments(sep, bytes);
            assert(detected(text.spec_bytes(), Some(s)));
            Some(r)
        },
        None => None,
    }
}

// ---------------------------------------------------------------------------
// Laws of segmenting
// ---------------------------------------------------------------------------

/// A terminator right after the release character does not end the segment:
/// it is kept in the buffer. A terminator after any other byte (or with no
/// release character configured) ends the segment, which is emitted when its
/// trimmed text is not empty.
pub proof fn law_release_escapes_terminator(sep: Sep, buf: Seq<u8>)
    requires
        !wrap_dropped(sep, sep.segment as u8),
    ensures
        sep.release is Some && buf.len() >= 1 && buf.last() == sep.release.unwrap() as u8
            ==> step(sep, buf, sep.segment as u8) == (buf.push(sep.segment as u8), None::<
            Seq<char>,
        >),
        (sep.release is None || buf.len() == 0 || buf.last() != sep.release.unwrap() as u8)
            ==> step(sep, buf, sep.segment as u8).0 == Seq::<u8>::empty() && step(
            sep,
            buf,
            sep.segment as u8,
        ).1 == (if segment_text(buf.push(sep.segment as u8)).len() > 0 {
            Some(segment_text(buf.push(sep.segment as u8)))
        } else {
            None
        }),
{
    let nb = buf.push(sep.segment as u8);
    if buf.len() >= 1 {
        assert(nb[nb.len() - 2] == buf.last());
    }
}

/// Bytes that hold no carriage return and no line feed.
pub open spec fn crlf_free(raw: Seq<u8>) -> bool {
    forall|k: int| 0 <= k < raw.len() ==> raw[k] != 13 && raw[k] != 10
}

/// A segment text that comes from bytes without CR or LF.
pub open spec fn from_unwrapped(t: Seq<char>) -> bool {
    exists|raw: Seq<u8>| crlf_free(raw) && t == segment_text(raw)
}

proof fn lemma_scan_unwrapped(sep: Sep, buf: Seq<u8>, out: Seq<Seq<char>>, bytes: Seq<u8>)
    requires
        sep.hard_wrap,
        crlf_free(buf),
        forall|i: int| 0 <= i < out.len() ==> from_unwrapped(#[trigger] out[i]),
    ensures
        crlf_free(scan(sep, buf, out, bytes).0),
        forall|i: int|
            0 <= i < scan(sep, buf, out, bytes).1.len() ==> from_unwrapped(
                #[trigger] scan(sep, buf, out, bytes).1[i],
            ),
    decreases bytes.len(),
{
    if bytes.len() > 0 {
        let b = bytes[0];
        let (nb, o) = step(sep, buf, b);
        if !wrap_dropped(sep, b) {
            assert(crlf_free(buf.push(b)));
            if b == sep.segment as u8 && !escaped(sep, buf.push(b)) {
                assert(from_unwrapped(segment_text(buf.push(b))));
            }
        }
        assert(crlf_free(nb));
        let e = emit(out, o);
        assert forall|i: int| 0 <= i < e.len() implies from_unwrapped(#[trigger] e[i]) by {
            if i < out.len() {
                assert(e[i] == out[i]);
            }
        }
        lemma_scan_unwrapped(sep, nb, e, bytes.drop_first());
    }
}

/// With hard wrap set, carriage returns and line feeds never reach a
/// segment: every segment is the trimmed text of document bytes free of
/// them.
pub proof fn law_hard_wrap_strips_line_breaks(sep: Sep, bytes: Seq<u8>)
    requires
        sep.hard_wrap,
    ensures
        forall|i: int|
            0 <= i < segments(sep, bytes).len() ==> from_unwrapped(
                #[trigger] segments(sep, bytes)[i],
            ),
{
    lemma_scan_unwrapped(sep, Seq::empty(), Seq::empty(), bytes);
    let (buf, out) = scan(sep, Seq::empty(), Seq::empty(), bytes);
    if buf.len() > 0 && segment_text(buf).len() > 0 {
        assert(from_unwrapped(segment_text(buf)));
        let r = out.push(segment_text(buf));
        assert forall|i: int| 0 <= i < r.len() implies from_unwrapped(#[trigger] r[i]) by {
            if i < out.len() {
                assert(r[i] == out[i]);
            }
        }
    }
}

/// Segments joined, each followed by the terminator byte `t`.
pub open spec fn join(segs: Seq<Seq<u8>>, t: u8) -> Seq<u8>
    decreases segs.len(),
{
    if segs.len() == 0 {
        Seq::empty()
    } else {
        join(segs.drop_last(), t) + segs.last().push(t)
    }
}

/// A segment body that the reader passes through whole: no terminator, no
/// byte that hard wrap drops, and no release character before the
/// terminator that follows it.
pub open spec fn plain_body(sep: Sep, s: Seq<u8>) -> bool {
    &&& forall|k: int|
        0 <= k < s.len() ==> #[trigger] s[k] != sep.segment as u8 && !wrap_dropped(sep, s[k])
    &&& (s.len() > 0 && sep.release is Some) ==> s.last() != sep.release.unwrap() as u8
}

proof fn lemma_scan_body(sep: Sep, buf: Seq<u8>, out: Seq<Seq<char>>, s: Seq<u8>)
    requires
        forall|k: int|
            0 <= k < s.len() ==> #[trigger] s[k] != sep.segment as u8 && !wrap_dropped(sep, s[k]),
    ensures
        scan(sep, buf, out, s) == (buf + s, out),
    decreases s.len(),
{
    if s.len() == 0 {
        assert(buf + s =~= buf);
    } else {
        assert(s[0] != sep.segment as u8);
        lemma_scan_body(sep, buf.push(s[0]), out, s.drop_first());
        assert(buf.push(s[0]) + s.drop_first() =~= buf + s);
    }
}

/// The segment, if any, that a terminator emits for text `t`.
pub open spec fn emitted(t: Seq<char>) -> Option<Seq<char>> {
    if t.len() > 0 {
        Some(t)
    } else {
        None
    }
}

proof fn lemma_scan_close(sep: Sep, buf: Seq<u8>, out: Seq<Seq<char>>, s: Seq<u8>)
    requires
        forall|k: int|
            0 <= k < s.len() ==> #[trigger] s[k] != sep.segment as u8 && !wrap_dropped(sep, s[k]),
        !wrap_dropped(sep, sep.segment as u8),
        sep.release is Some && (buf + s).len() > 0 ==> (buf + s).last()
            != sep.release.unwrap() as u8,
    ensures
        scan(sep, buf, out, s.push(sep.segment as u8)) == (
            Seq::<u8>::empty(),
            emit(out, emitted(segment_text((buf + s).push(sep.segment as u8)))),
        ),
{
    let t = sep.segment as u8;
    lemma_scan_append(sep, buf, out, s, seq![t]);
    assert(s + seq![t] =~= s.push(t));
    lemma_scan_body(sep, buf, out, s);
    let w = buf + s;
    let nb = w.push(t);
    if w.len() > 0 {
        assert(nb[nb.len() - 2] == w.last());
    }
    assert(!escaped(sep, nb));
    assert(seq![t].drop_first() =~= Seq::<u8>::empty());
    assert(step(sep, w, t) == (Seq::<u8>::empty(), emitted(segment_text(nb))));
    assert(scan(sep, w, out, seq![t]) == scan(
        sep,
        Seq::<u8>::empty(),
        emit(out, emitted(segment_text(nb))),
        Seq::<u8>::empty(),
    ));
}

proof fn lemma_scan_one_segment(sep: Sep, out: Seq<Seq<char>>, s: Seq<u8>)
    requires
        plain_body(sep, s),
        !wrap_dropped(sep, sep.segment as u8),
        segment_text(s.push(sep.segment as u8)).len() > 0,
    ensures
        scan(sep, Seq::empty(), out, s.push(sep.segment as u8)) == (
            Seq::<u8>::empty(),
            out.push(segment_text(s.push(sep.segment as u8))),
        ),
{
    assert(Seq::<u8>::empty() + s =~= s);
    lemma_scan_close(sep, Seq::empty(), out, s);
}

/// Splitting a document made of segments, each followed by the terminator,
/// gives back each segment with its terminator, trimmed: joining the results
/// with nothing between them restores the document up to whitespace at
/// segment boundaries.
pub proof fn law_split_round_trip(sep: Sep, segs: Seq<Seq<u8>>)
    requires
        !wrap_dropped(sep, sep.segment as u8),
        forall|i: int| 0 <= i < segs.len() ==> plain_body(sep, #[trigger] segs[i]),
        forall|i: int|
            0 <= i < segs.len() ==> segment_text(#[trigger] segs[i].push(sep.segment as u8)).len()
                > 0,
    ensures
        segments(sep, join(segs, sep.segment as u8)) == Seq::new(
            segs.len(),
            |i: int| segment_text(segs[i].push(sep.segment as u8)),
        ),
{
    lemma_scan_joined(sep, segs);
}

proof fn lemma_scan_joined(sep: Sep, segs: Seq<Seq<u8>>)
    requires
        !wrap_dropped(sep, sep.segment as u8),
        forall|i: int| 0 <= i < segs.len() ==> plain_body(sep, #[trigger] segs[i]),
        forall|i: int|
            0 <= i < segs.len() ==> segment_text(#[trigger] segs[i].push(sep.segment as u8)).len()
                > 0,
    ensures
        scan(sep, Seq::empty(), Seq::empty(), join(segs, sep.segment as u8)) == (
            Seq::<u8>::empty(),
            Seq::new(segs.len(), |i: int| segment_text(segs[i].push(sep.segment as u8))),
        ),
    decreases segs.len(),
{
    let t = sep.segment as u8;
    if segs.len() == 0 {
        assert(Seq::new(0, |i: int| segment_text(segs[i].push(t))) =~= Seq::<Seq<char>>::empty());
    } else {
        let init = segs.drop_last();
        assert forall|i: int| 0 <= i < init.len() implies plain_body(sep, #[trigger] init[i]) by {
            assert(init[i] == segs[i]);
        }
        assert forall|i: int| 0 <= i < init.len() implies segment_text(
            #[trigger] init[i].push(t),
        ).len() > 0 by {
            assert(init[i] == segs[i]);
        }
        lemma_scan_joined(sep, init);
        let prev = Seq::new(init.len(), |i: int| segment_text(init[i].push(t)));
        lemma_scan_append(sep, Seq::empty(), Seq::empty(), join(init, t), segs.last().push(t));
        assert(plain_body(sep, segs[segs.len() - 1]));
        assert(segment_text(segs[segs.len() - 1].push(t)).len() > 0);
        lemma_scan_one_segment(sep, prev, segs.last());
        assert(prev.push(segment_text(segs.last().push(t))) =~= Seq::new(
            segs.len(),
            |i: int| segment_text(segs[i].push(t)),
        ));
    }
}

proof fn lemma_trim_start_push(x: Seq<char>, c: char)
    requires
        !is_white(c),
    ensures
        trim_start(x.push(c)) == trim_start(x).push(c),
    decreases x.len(),
{
    if x.len() > 0 && is_white(x[0]) {
        assert(x.push(c).drop_first() =~= x.drop_first().push(c));
        lemma_trim_start_push(x.drop_first(), c);
    } else if x.len() == 0 {
        assert(x.push(c)[0] == c);
    } else {
        assert(x.push(c)[0] == x[0]);
    }
}

/// An ASCII segment whose terminator is not whitespace keeps its
/// terminator: its text is the bytes as characters, with leading whitespace
/// removed, then the terminator. So it is never empty.
pub proof fn law_ascii_segment_keeps_terminator(s: Seq<u8>, t: u8)
    requires
        ascii_bytes(s),
        t < 128,
        !is_white(t as char),
    ensures
        segment_text(s.push(t)) == trim_start(ascii_text(s)).push(t as char),
        segment_text(s.push(t)).len() > 0,
{
    lemma_ascii_decoded(s.push(t));
    assert(ascii_text(s.push(t)) =~= ascii_text(s).push(t as char));
    lemma_trim_start_push(ascii_text(s), t as char);
    let y = trim_start(ascii_text(s)).push(t as char);
    assert(y.last() == t as char);
    assert(trim_end(y) == y);
}

/// A terminator right after the release character does not end the
/// segment: from an empty buffer, `a`, the release character, the
/// terminator, `c` and a final terminator make up one segment, which the
/// final terminator ends.
pub proof fn law_released_terminator_in_stream(sep: Sep, out: Seq<Seq<char>>, a: Seq<u8>, c: Seq<u8>)
    requires
        sep.release is Some,
        sep.release.unwrap() as u8 != sep.segment as u8,
        !wrap_dropped(sep, sep.segment as u8),
        !wrap_dropped(sep, sep.release.unwrap() as u8),
        forall|k: int|
            0 <= k < a.len() ==> #[trigger] a[k] != sep.segment as u8 && !wrap_dropped(sep, a[k]),
        forall|k: int|
            0 <= k < c.len() ==> #[trigger] c[k] != sep.segment as u8 && !wrap_dropped(sep, c[k]),
        c.len() > 0 ==> c.last() != sep.release.unwrap() as u8,
    ensures
        ({
            let t = sep.segment as u8;
            let r = sep.release.unwrap() as u8;
            let whole = a + seq![r, t] + c + seq![t];
            scan(sep, Seq::empty(), out, whole) == (
                Seq::<u8>::empty(),
                emit(out, emitted(segment_text(whole))),
            )
        }),
{
    let t = sep.segment as u8;
    let r = sep.release.unwrap() as u8;
    let ar = a.push(r);
    let art = ar.push(t);
    let whole = a + seq![r, t] + c + seq![t];
    assert(whole =~= ar + (seq![t] + c.push(t)));
    lemma_scan_append(sep, Seq::empty(), out, ar, seq![t] + c.push(t));
    lemma_scan_body(sep, Seq::empty(), out, ar);
    assert(Seq::<u8>::empty() + ar =~= ar);
    lemma_scan_append(sep, ar, out, seq![t], c.push(t));
    assert(art[art.len() - 2] == r);
    assert(escaped(sep, art));
    assert(seq![t].drop_first() =~= Seq::<u8>::empty());
    assert(scan(sep, ar, out, seq![t]) == scan(sep, art, out, Seq::<u8>::empty()));
    lemma_scan_close(sep, art, out, c);
    assert((art + c).push(t) =~= whole);
}

/// For an ASCII document of segments, each followed by a terminator that is
/// not whitespace: each segment comes back as its bytes with leading
/// whitespace removed and its terminator kept, so the segments joined with
/// nothing between them restore the document but for whitespace at segment
/// starts.
pub proof fn law_ascii_round_trip(sep: Sep, segs: Seq<Seq<u8>>)
    requires
        (sep.segment as u8) < 128,
        !is_white((sep.segment as u8) as char),
        !wrap_dropped(sep, sep.segment as u8),
        forall|i: int| 0 <= i < segs.len() ==> plain_body(sep, #[trigger] segs[i]),
        forall|i: int| 0 <= i < segs.len() ==> ascii_bytes(#[trigger] segs[i]),
    ensures
        segments(sep, join(segs, sep.segment as u8)) == Seq::new(
            segs.len(),
            |i: int| trim_start(ascii_text(segs[i])).push((sep.segment as u8) as char),
        ),
{
    let t = sep.segment as u8;
    assert forall|i: int| 0 <= i < segs.len() implies segment_text(
        #[trigger] segs[i].push(t),
    ).len() > 0 && segment_text(segs[i].push(t)) == trim_start(ascii_text(segs[i])).push(
        t as char,
    ) by {
        law_ascii_segment_keeps_terminator(segs[i], t);
    }
    law_split_round_trip(sep, segs);
    assert(Seq::new(segs.len(), |i: int| segment_text(segs[i].push(t))) =~= Seq::new(
        segs.len(),
        |i: int| trim_start(ascii_text(segs[i])).push(t as char),
    ));
}

/// Text without carriage returns and line feeds.
pub open spec fn no_line_breaks(t: Seq<char>) -> bool {
    forall|k: int| 0 <= k < t.len() ==> t[k] != '\r' && t[k] != '\n'
}

proof fn lemma_trim_start_no_line_breaks(x: Seq<char>)
    requires
        no_line_breaks(x),
    ensures
        no_line_breaks(trim_start(x)),
    decreases x.len(),
{
    if x.len() > 0 && is_white(x[0]) {
        assert(no_line_breaks(x.drop_first())) by {
            assert forall|k: int| 0 <= k < x.drop_first().len() implies x.drop_first()[k]
                != '\r' && x.drop_first()[k] != '\n' by {
                assert(x.drop_first()[k] == x[k + 1]);
            }
        }
        lemma_trim_start_no_line_breaks(x.drop_first());
    }
}

proof fn lemma_trim_end_no_line_breaks(x: Seq<char>)
    requires
        no_line_breaks(x),
    ensures
        no_line_breaks(trim_end(x)),
    decreases x.len(),
{
    if x.len() > 0 && is_white(x.last()) {
        assert(no_line_breaks(x.drop_last())) by {
            assert forall|k: int| 0 <= k < x.drop_last().len() implies x.drop_last()[k]
                != '\r' && x.drop_last()[k] != '\n' by {
                assert(x.drop_last()[k] == x[k]);
            }
        }
        lemma_trim_end_no_line_breaks(x.drop_last());
    }
}

proof fn lemma_clean_segment_text(raw: Seq<u8>)
    requires
        ascii_bytes(raw),
        crlf_free(raw),
    ensures
        no_line_breaks(segment_text(raw)),
{
    lemma_ascii_decoded(raw);
    let x = ascii_text(raw);
    assert forall|k: int| 0 <= k < x.len() implies x[k] != '\r' && x[k] != '\n' by {
        let v = raw[k];
        assert(v != 13 && v != 10);
        assert(x[k] == v as char);
    }
    lemma_trim_start_no_line_breaks(x);
    lemma_trim_end_no_line_breaks(trim_start(x));
}

proof fn lemma_scan_clean(sep: Sep, buf: Seq<u8>, out: Seq<Seq<char>>, bytes: Seq<u8>)
    requires
        sep.hard_wrap,
        crlf_free(buf),
        ascii_bytes(buf),
        ascii_bytes(bytes),
        forall|i: int| 0 <= i < out.len() ==> no_line_breaks(#[trigger] out[i]),
    ensures
        crlf_free(scan(sep, buf, out, bytes).0),
        ascii_bytes(scan(sep, buf, out, bytes).0),
        forall|i: int|
            0 <= i < scan(sep, buf, out, bytes).1.len() ==> no_line_breaks(
                #[trigger] scan(sep, buf, out, bytes).1[i],
            ),
    decreases bytes.len(),
{
    if bytes.len() > 0 {
        let b = bytes[0];
        let (nb, o) = step(sep, buf, b);
        if !wrap_dropped(sep, b) {
            assert(crlf_free(buf.push(b)));
            assert(ascii_bytes(buf.push(b)));
            if b == sep.segment as u8 && !escaped(sep, buf.push(b)) {
                lemma_clean_segment_text(buf.push(b));
            }
        }
        assert(crlf_free(nb));
        assert(ascii_bytes(nb));
        let e = emit(out, o);
        assert forall|i: int| 0 <= i < e.len() implies no_line_breaks(#[trigger] e[i]) by {
            if i < out.len() {
                assert(e[i] == out[i]);
            }
        }
        assert(ascii_bytes(bytes.drop_first()));
        lemma_scan_clean(sep, nb, e, bytes.drop_first());
    }
}

/// With hard wrap set, no segment of an ASCII document holds a carriage
/// return or a line feed.
pub proof fn law_hard_wrap_ascii_segments_have_no_line_breaks(sep: Sep, bytes: Seq<u8>)
    requires
        sep.hard_wrap,
        ascii_bytes(bytes),
    ensures
        forall|i: int|
            0 <= i < segments(sep, bytes).len() ==> no_line_breaks(
                #[trigger] segments(sep, bytes)[i],
            ),
{
    lemma_scan_clean(sep, Seq::empty(), Seq::empty(), bytes);
    let (buf, out) = scan(sep, Seq::empty(), Seq::empty(), bytes);
    if buf.len() > 0 && segment_text(buf).len() > 0 {
        lemma_clean_segment_text(buf);
        let r = out.push(segment_text(buf));
        assert forall|i: int| 0 <= i < r.len() implies no_line_breaks(#[trigger] r[i]) by {
            if i < out.len() {
                assert(r[i] == out[i]);
            }
        }
    }
}

proof fn lemma_find_in_prefix(b: Seq<u8>, pat: Seq<u8>, n: int, from: int)
    requires
        0 <= n <= b.len(),
        find_from(b.take(n), pat, from) is Some,
    ensures
        find_from(b, pat, from) == find_from(b.take(n), pat, from),
    decreases n - from,
{
    lemma_find_from_found(b.take(n), pat, from);
    let w = b.take(n);
    if from + pat.len() <= n && from >= 0 {
        assert(w.subrange(from, from + pat.len()) =~= b.subrange(from, from + pat.len()));
        if !occurs_at(w, pat, from) {
            lemma_find_in_prefix(b, pat, n, from + 1);
        }
    }
}

proof fn lemma_find_first(b: Seq<u8>, pat: Seq<u8>, from: int)
    requires
        find_from(b, pat, from) is Some,
    ensures
        forall|j: int| from <= j < find_from(b, pat, from).unwrap() ==> !occurs_at(b, pat, j),
    decreases b.len() - from,
{
    if from >= 0 && from < b.len() && from + pat.len() <= b.len() && !occurs_at(b, pat, from) {
        lemma_find_first(b, pat, from + 1);
    }
}

/// In a valid X12 header the suffix is short: `GS` starts at offset 106, 107
/// or 108, and the bytes of the suffix (106 up to that offset) hold no `GS`.
pub proof fn law_x12_suffix_before_gs(b: Seq<u8>)
    requires
        x12_valid(b),
    ensures
        find_from(b, tag_gs(), 106) is Some,
        106 <= find_from(b, tag_gs(), 106).unwrap() <= 108,
        occurs_at(b, tag_gs(), find_from(b, tag_gs(), 106).unwrap()),
        forall|j: int|
            106 <= j < find_from(b, tag_gs(), 106).unwrap() ==> !occurs_at(b, tag_gs(), j),
{
    lemma_find_in_prefix(b, tag_gs(), 110, 106);
    lemma_find_from_found(b.take(110), tag_gs(), 106);
    lemma_find_from_found(b, tag_gs(), 106);
    lemma_find_first(b, tag_gs(), 106);
}

} // verus!
