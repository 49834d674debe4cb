//! The format decoder: dispatch by file extension, and the byte-to-text
//! decoders for the formats the library reads itself.

use vstd::prelude::*;
use crate::chars::chars_of_string;

verus! {

/// The document formats the engine knows, resolved once from the file
/// extension.
#[derive(Clone, Copy, PartialEq, Eq, Structural, Debug)]
pub enum FormatKind {
    Plain,
    Pdf,
    Docx,
    Unknown,
}

/// Why a file's bytes could not be decoded; the build skips the file.
#[derive(Clone, Copy, PartialEq, Eq, Structural, Debug)]
pub enum DecodeError {
    Malformed,
}

/// Index of the last occurrence of `c` in `s`, or -1 if there is none.
pub open spec fn find_last(s: Seq<char>, c: char) -> int
    decreases s.len(),
{
    if s.len() == 0 {
        -1
    } else if s.last() == c {
        s.len() - 1
    } else {
        find_last(s.drop_last(), c)
    }
}

proof fn lemma_find_last_le(s: Seq<char>, c: char)
    ensures
        -1 <= find_last(s, c) < s.len(),
    decreases s.len(),
{
    if s.len() > 0 && s.last() != c {
        lemma_find_last_le(s.drop_last(), c);
    }
}

/// The path's file name: everything after its last separator.
pub open spec fn spec_file_name(p: Seq<char>) -> Seq<char> {
    p.skip(find_last(p, '/') + 1)
}

/// The path's extension, as `Path::extension` has it: what follows the
/// file name's last dot; empty when there is no dot, or only the leading
/// dot of a hidden file.
pub open spec fn spec_extension(p: Seq<char>) -> Seq<char> {
    let name = spec_file_name(p);
    let d = find_last(name, '.');
    if d <= 0 {
        Seq::empty()
    } else {
        name.skip(d + 1)
    }
}

/// The format an extension names: `txt` or none is plain text, `pdf` and
/// `docx` their formats, anything else unknown (read as raw text, with a
/// warning at the caller).
pub open spec fn spec_format(ext: Seq<char>) -> FormatKind {
    if ext == seq!['t', 'x', 't'] || ext == Seq::<char>::empty() {
        FormatKind::Plain
    } else if ext == seq!['p', 'd', 'f'] {
        FormatKind::Pdf
    } else if ext == seq!['d', 'o', 'c', 'x'] {
        FormatKind::Docx
    } else {
        FormatKind::Unknown
    }
}

fn find_last_ex(cs: &Vec<char>, c: char) -> (r: Option<usize>)
    ensures
        match r {
            Some(i) => i < cs@.len() && find_last(cs@, c) == i,
            None => find_last(cs@, c) == -1,
        },
{
    let mut i: usize = cs.len();
    proof {
        assert(cs@.take(cs@.len() as int) =~= cs@);
    }
    while i > 0
        invariant
            i <= cs@.len(),
            find_last(cs@, c) == find_last(cs@.take(i as int), c),
        decreases i,
    {
        i = i - 1;
        if cs[i] == c {
            proof {
                assert(cs@.take(i as int + 1).last() == cs@[i as int]);
                assert(find_last(cs@.take(i as int + 1), c) == i);
            }
            return Some(i);
        }
        proof {
            assert(cs@.take(i as int + 1).last() == cs@[i as int]);
            assert(cs@.take(i as int + 1).drop_last() =~= cs@.take(i as int));
        }
    }
    proof {
        assert(cs@.take(0) =~= Seq::<char>::empty());
    }
    None
}

/// The extension of a path, by the same cut as `spec_extension`.
pub fn extension_of(path: &String) -> (r: String)
    ensures
        r@ == spec_extension(path@),
{
    let cs = chars_of_string(path);
    proof {
        assert(vstd::std_specs::vec::spec_vec_len(&cs) == cs@.len());
        lemma_find_last_le(cs@, '/');
    }
    let start: usize = match find_last_ex(&cs, '/') {
        Some(i) => i + 1,
        None => 0,
    };
    let mut name: Vec<char> = Vec::new();
    let mut i: usize = start;
    proof {
        assert(name@ =~= cs@.subrange(start as int, start as int));
    }
    while i < cs.len()
        invariant
            start <= i <= cs@.len(),
            name@ == cs@.subrange(start as int, i as int),
        decreases cs@.len() - i,
    {
        name.push(cs[i]);
        proof {
            assert(name@ =~= cs@.subrange(start as int, i as int + 1));
        }
        i = i + 1;
    }
    proof {
        assert(name@ =~= spec_file_name(path@));
        assert(vstd::std_specs::vec::spec_vec_len(&name) == name@.len());
    }
    proof {
        lemma_find_last_le(name@, '.');
    }
    let dot = match find_last_ex(&name, '.') {
        Some(i) => i,
        None => 0,
    };
    if dot == 0 {
        let empty_out: Vec<char> = Vec::new();
        proof {
            assert(empty_out@ =~= spec_extension(path@));
        }
        crate::chars::string_of_chars(&empty_out)
    } else {
        let dstart: usize = dot + 1;
        let mut ext: Vec<char> = Vec::new();
        let mut j: usize = dstart;
        proof {
            assert(ext@ =~= name@.subrange(dstart as int, dstart as int));
        }
        while j < name.len()
            invariant
                dstart <= j <= name@.len(),
                ext@ == name@.subrange(dstart as int, j as int),
            decreases name@.len() - j,
        {
            ext.push(name[j]);
            proof {
                assert(ext@ =~= name@.subrange(dstart as int, j as int + 1));
            }
            j = j + 1;
        }
        proof {
            assert(ext@ =~= spec_extension(path@));
        }
        crate::chars::string_of_chars(&ext)
    }
}

/// The format named by an extension.
pub fn format_of(ext: &String) -> (r: FormatKind)
    ensures
        r == spec_format(ext@),
{
    proof {
        reveal_strlit("txt");
        reveal_strlit("pdf");
        reveal_strlit("docx");
        reveal_strlit("");
        assert("txt"@ =~= seq!['t', 'x', 't']);
        assert("pdf"@ =~= seq!['p', 'd', 'f']);
        assert("docx"@ =~= seq!['d', 'o', 'c', 'x']);
        assert(""@ =~= Seq::<char>::empty());
    }
    let txt: String = String::from_str("txt");
    let pdf: String = String::from_str("pdf");
    let docx: String = String::from_str("docx");
    let none: String = String::from_str("");
    if *ext == txt || *ext == none {
        FormatKind::Plain
    } else if *ext == pdf {
        FormatKind::Pdf
    } else if *ext == docx {
        FormatKind::Docx
    } else {
        FormatKind::Unknown
    }
}

/// What lossy UTF-8 decoding makes of a byte string: a function of the
/// bytes alone, invalid sequences replaced.
pub uninterp spec fn lossy_of(bytes: Seq<u8>) -> Seq<char>;

/// Relies on `String::from_utf8_lossy`: decoding is a pure function of
/// the bytes; valid UTF-8 decodes exactly, invalid sequences become
/// replacement characters.
#[verifier::external_body]
fn utf8_lossy(bytes: &Vec<u8>) -> (r: String)
    ensures
        r@ == lossy_of(bytes@),
{
    String::from_utf8_lossy(bytes).to_string()
}

/// What DOCX text extraction makes of a byte package: the text of its
/// paragraphs joined by single spaces, or nothing when the package does
/// not parse. A function of the bytes alone.
pub uninterp spec fn docx_text_of(bytes: Seq<u8>) -> Option<Seq<char>>;

pub open spec fn docx_view(r: Option<String>) -> Option<Seq<char>> {
    match r {
        None => None,
        Some(s) => Some(s@),
    }
}

/// Relies on `docx_rs::read_docx` and `Paragraph::raw_text`: parsing the
/// package and reading each paragraph's text are functions of the bytes;
/// the paragraphs are joined with single spaces, other structural nodes
/// are ignored, and a malformed package yields `None`.
#[verifier::external_body]
fn docx_text(bytes: &Vec<u8>) -> (r: Option<String>)
    ensures
        docx_view(r) == docx_text_of(bytes@),
{
    let docx = match docx_rs::read_docx(bytes) {
        Ok(d) => d,
        Err(_) => return None,
    };
    let mut parts: Vec<String> = Vec::new();
    for child in docx.document.children.iter() {
        if let docx_rs::DocumentChild::Paragraph(p) = child {
            parts.push(p.raw_text());
        }
    }
    Some(parts.join(" "))
}

/// Decode a file's bytes by its resolved format. Plain and unknown
/// formats decode as lossy UTF-8 text and cannot fail; a DOCX package
/// fails exactly when it does not parse. PDF needs the external PDF
/// library and is decoded by the caller that owns it.
pub fn decode(kind: FormatKind, bytes: &Vec<u8>) -> (r: Result<Vec<char>, DecodeError>)
    requires
        kind != FormatKind::Pdf,
    ensures
        match kind {
            FormatKind::Docx => (match docx_text_of(bytes@) {
                Some(t) => r matches Ok(cs) && cs@ == t,
                None => r == Err::<Vec<char>, DecodeError>(DecodeError::Malformed),
            }),
            _ => (r matches Ok(cs) && cs@ == lossy_of(bytes@)),
        },
{
    match kind {
        FormatKind::Docx => {
            match docx_text(bytes) {
                Some(s) => Ok(chars_of_string(&s)),
                None => Err(DecodeError::Malformed),
            }
        }
        _ => {
            let s = utf8_lossy(bytes);
            Ok(chars_of_string(&s))
        }
    }
}

} // verus!
