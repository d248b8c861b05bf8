use edicat::edi::{detect, detect_bytes, is_x12_header, read_document_str, split_segments, EdiDocumentReader, Sep};

const ISA: &str = "ISA*00*          *00*          *01*0011223456     *01*999999999      *950120*0147*U*00300*000000005*0*P*^~";

fn strings(v: &[&str]) -> Vec<String> {
    v.iter().map(|s| s.to_string()).collect()
}

#[test]
fn new_sets_required_fields_only() {
    let sep = Sep::new('*', '~', '^', "x".to_string());
    assert_eq!(sep.element, '*');
    assert_eq!(sep.segment, '~');
    assert_eq!(sep.subelement, '^');
    assert_eq!(sep.suffix, "x");
    assert_eq!(sep.release, None);
    assert_eq!(sep.escape, None);
    assert_eq!(sep.repetition, None);
    assert!(!sep.hard_wrap);
}

#[test]
fn x12_suffix_is_text_before_gs() {
    let doc = format!("{}\nGS*PO*test~", ISA);
    let sep = detect(&doc).unwrap();
    assert_eq!(sep.suffix, "\n");
    assert_eq!(sep.release, None);
    let plain = format!("{}GS*PO*test~", ISA);
    assert_eq!(detect(&plain).unwrap().suffix, "");
}

#[test]
fn x12_without_gs_is_rejected() {
    let doc = format!("{}ST*850*1~", ISA);
    assert!(detect(&doc).is_none());
}

#[test]
fn x12_inconsistent_separator_is_rejected() {
    let mut doc = format!("{}GS*PO*test~", ISA);
    doc.replace_range(6..7, "|");
    assert!(detect(&doc).is_none());
}

#[test]
fn x12_short_header_is_rejected() {
    assert!(detect(&ISA[..100]).is_none());
}

#[test]
fn una_suffix_and_repetition() {
    let sep = detect("UNA:+.?*'\r\nUNB+IATB:1+test'").unwrap();
    assert_eq!(sep.repetition, Some('*'));
    assert_eq!(sep.suffix, "\r\n");
    assert_eq!(sep.escape, None);
}

#[test]
fn una_without_un_is_rejected() {
    assert!(detect("UNA:+.? 'XXXXXXXXXXXX").is_none());
}

#[test]
fn unb_suffix_between_terminator_and_un() {
    let sep = detect("UNB+UNOA:1+a'\nUNH+1'").unwrap();
    assert_eq!(sep.suffix, "\n");
    assert_eq!(sep.segment, '\'');
    let none = detect("UNB+UNOA:1+abc").unwrap();
    assert_eq!(none.suffix, "");
}

#[test]
fn short_text_is_rejected() {
    assert!(detect("").is_none());
    assert!(detect("UNB+UNOA").is_none());
}

#[test]
fn released_terminator_does_not_end_segment() {
    let segs = read_document_str("UNB+UNOA:1+a?'b'UNZ+1'").unwrap();
    assert_eq!(segs, strings(&["UNB+UNOA:1+a?'b'", "UNZ+1'"]));
}

#[test]
fn lone_terminators_are_segments_and_whitespace_is_trimmed() {
    let segs = read_document_str("UNB+UNOA:1+x'''\n  UNH+1'\n").unwrap();
    assert_eq!(segs, strings(&["UNB+UNOA:1+x'", "'", "'", "UNH+1'"]));
}

#[test]
fn whitespace_only_segments_are_skipped() {
    let sep = Sep::new('*', '\n', ':', String::new());
    let segs = split_segments(sep, b"A*1\n\n \nB\n");
    assert_eq!(segs, strings(&["A*1", "B"]));
}

#[test]
fn unterminated_tail_is_emitted() {
    let segs = read_document_str("UNB+UNOA:1+x'tail ").unwrap();
    assert_eq!(segs, strings(&["UNB+UNOA:1+x'", "tail"]));
}

#[test]
fn round_trip_rejoins_segments() {
    let doc = "UNB+UNOA:1+x'UNH+1'BGM+220'UNT+3+1'UNZ+1'";
    let segs = read_document_str(doc).unwrap();
    assert_eq!(segs.len(), 5);
    assert_eq!(segs.concat(), doc);
}

#[test]
fn hard_wrap_is_detected_and_stripped() {
    let mut body = String::from("UNB+UNOA:1+S+R+940101:0950+1'UNH+1+PAORES:93:1:IA'");
    while body.len() < 240 {
        body.push_str("IFT+3+X'");
    }
    let mut doc = String::new();
    for (i, c) in body.chars().enumerate() {
        if i > 0 && i % 80 == 0 {
            doc.push_str("\r\n");
        }
        doc.push(c);
    }
    let b = doc.as_bytes();
    assert_eq!(&b[80..82], b"\r\n");
    assert_eq!(&b[162..164], b"\r\n");
    assert_eq!(&b[244..246], b"\r\n");
    let sep = detect(&doc).unwrap();
    assert!(sep.hard_wrap);
    let segs = read_document_str(&doc).unwrap();
    for s in &segs {
        assert!(!s.contains('\r') && !s.contains('\n'));
    }
    assert_eq!(segs.concat(), body);
}

#[test]
fn no_hard_wrap_keeps_line_breaks_inside_segments() {
    let sep = detect("UNB+UNOA:1+x'").unwrap();
    let segs = split_segments(sep, b"A\r\nB'C'");
    assert_eq!(segs, strings(&["A\r\nB'", "C'"]));
}

#[test]
fn invalid_utf8_is_replaced() {
    let doc: &[u8] = b"UNB+UNOA:1+x'\xffAB'";
    let sep = detect_bytes(doc).unwrap();
    let segs = split_segments(sep, doc);
    assert_eq!(segs, strings(&["UNB+UNOA:1+x'", "\u{fffd}AB'"]));
}

#[test]
fn reader_fed_byte_by_byte() {
    let sep = Sep::new('+', '~', ':', String::new());
    let mut reader = EdiDocumentReader::new(sep);
    let mut out = Vec::new();
    for &b in b"A+1~ B~~C" {
        if let Some(s) = reader.push_byte(b) {
            out.push(s);
        }
    }
    if let Some(s) = reader.finish() {
        out.push(s);
    }
    assert_eq!(out, strings(&["A+1~", "B~", "~", "C"]));
    assert_eq!(reader.finish(), None);
    assert_eq!(reader.push_byte(b'~'), None);
}

#[test]
fn reader_failure_drops_buffer() {
    let sep = Sep::new('+', '~', ':', String::new());
    let mut reader = EdiDocumentReader::new(sep);
    assert_eq!(reader.push_byte(b'A'), None);
    reader.fail();
    assert_eq!(reader.finish(), None);
}

#[test]
fn x12_header_needs_isa_and_full_length() {
    let doc = format!("{}GS*PO*test~", ISA);
    assert!(is_x12_header(doc.as_bytes()));
    assert!(is_x12_header(&doc.as_bytes()[..110]));
    assert!(!is_x12_header(&doc.as_bytes()[..109]));
    assert!(!is_x12_header(b"UNA:+.? 'UNB+IATB:1+test"));
}

#[test]
fn release_controls_terminator_escape() {
    let mut sep = Sep::new('+', '\'', ':', String::new());
    sep.release = Some('?');
    assert_eq!(split_segments(sep.clone(), b"A?'B'C'"), strings(&["A?'B'", "C'"]));
    sep.release = None;
    assert_eq!(split_segments(sep, b"A?'B'C'"), strings(&["A?'", "B'", "C'"]));
}

#[test]
fn leading_whitespace_trimmed_and_tail_emitted() {
    let sep = Sep::new('+', '\'', ':', String::new());
    assert_eq!(split_segments(sep, b"  ABC+1'  DEF  "), strings(&["ABC+1'", "DEF"]));
}

#[test]
fn segments_keep_trailing_whitespace_before_terminator() {
    let sep = Sep::new('+', '\'', ':', String::new());
    assert_eq!(split_segments(sep, b" A \n B '"), strings(&["A \n B '"]));
}
