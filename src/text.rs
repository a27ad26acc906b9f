//! Text encodings: the labelled encoding of a dictionary and decoding under it.
use vstd::prelude::*;

verus! {

/// The canonical name of the encoding that a label denotes, if the registry
/// knows the label.
pub uninterp spec fn encoding_name_for_label(label: Seq<u8>) -> Option<Seq<char>>;

/// The text that decoding `bytes` under the encoding of `label` yields.
pub uninterp spec fn decoded_text(label: Seq<u8>, bytes: Seq<u8>) -> Seq<char>;

/// The label "utf-8".
pub open spec fn utf8_label() -> Seq<u8> {
    seq![0x75u8, 0x74, 0x66, 0x2d, 0x38]
}

/// The label "utf-16le".
pub open spec fn utf16le_label() -> Seq<u8> {
    seq![0x75u8, 0x74, 0x66, 0x2d, 0x31, 0x36, 0x6c, 0x65]
}

/// The encoding of a dictionary's text.
pub enum TextEncoding {
    Utf8,
    Utf16Le,
    /// Any other encoding, by a label that the registry knows.
    Labelled(Vec<u8>),
}

impl TextEncoding {
    /// The label under which the encoding is looked up.
    pub open spec fn label(&self) -> Seq<u8> {
        match self {
            TextEncoding::Utf8 => utf8_label(),
            TextEncoding::Utf16Le => utf16le_label(),
            TextEncoding::Labelled(l) => l@,
        }
    }

    /// A labelled encoding names a label that the registry knows.
    pub open spec fn wf(&self) -> bool {
        self is Labelled ==> encoding_name_for_label(self->Labelled_0@) is Some
    }

    /// Bytes per code unit in key texts: one for UTF-8, two otherwise.
    pub open spec fn spec_unit(&self) -> nat {
        if self is Utf8 {
            1
        } else {
            2
        }
    }

    pub fn unit(&self) -> (r: usize)
        ensures
            r == self.spec_unit(),
    {
        match self {
            TextEncoding::Utf8 => 1,
            _ => 2,
        }
    }

    pub fn is_utf8(&self) -> (r: bool)
        ensures
            r == (self is Utf8),
    {
        match self {
            TextEncoding::Utf8 => true,
            _ => false,
        }
    }
}

impl Clone for TextEncoding {
    fn clone(&self) -> (r: Self)
        ensures
            r.label() == self.label(),
            r is Utf8 <==> self is Utf8,
            r is Utf16Le <==> self is Utf16Le,
    {
        match self {
            TextEncoding::Utf8 => TextEncoding::Utf8,
            TextEncoding::Utf16Le => TextEncoding::Utf16Le,
            TextEncoding::Labelled(l) => {
                let c = l.clone();
                proof {
                    assert(c@ =~= l@);
                }
                TextEncoding::Labelled(c)
            },
        }
    }
}

/// Relies on encoding_rs::Encoding::for_label and the found encoding's `name`:
/// the canonical name of the encoding that the label denotes.
#[verifier::external_body]
fn encoding_name(label: &[u8]) -> (r: Option<String>)
    ensures
        match r {
            Some(n) => encoding_name_for_label(label@) == Some(n@),
            None => encoding_name_for_label(label@) is None,
        },
{
    encoding_rs::Encoding::for_label(label).map(|e| e.name().to_string())
}

/// Relies on encoding_rs::Encoding::decode (with the encoding that `for_label`
/// gives for the label): the decoded text, malformed sequences replaced.
#[verifier::external_body]
pub(crate) fn decode_text(encoding: &TextEncoding, bytes: &[u8]) -> (r: String)
    requires
        encoding.wf(),
    ensures
        r@ == decoded_text(encoding.label(), bytes@),
{
    let e = match encoding {
        TextEncoding::Utf8 => encoding_rs::UTF_8,
        TextEncoding::Utf16Le => encoding_rs::UTF_16LE,
        TextEncoding::Labelled(l) => encoding_rs::Encoding::for_label(l).expect("known label"),
    };
    e.decode(bytes).0.into_owned()
}

/// `e` is the encoding that the registry gives for `label`.
pub open spec fn selects(e: TextEncoding, label: Seq<u8>) -> bool {
    match encoding_name_for_label(label) {
        None => false,
        Some(n) => {
            &&& (e is Utf8 <==> n == "UTF-8"@)
            &&& (e is Utf16Le <==> n == "UTF-16LE"@)
            &&& (e is Labelled ==> e->Labelled_0@ == label)
        },
    }
}

/// Looks a label up in the encoding registry.
pub fn encoding_for_label(label: &[u8]) -> (r: Option<TextEncoding>)
    ensures
        r is Some <==> encoding_name_for_label(label@) is Some,
        r is Some ==> r->0.wf() && selects(r->0, label@),
{
    match encoding_name(label) {
        None => None,
        Some(name) => {
            proof {
                reveal_strlit("UTF-8");
                reveal_strlit("UTF-16LE");
                assert("UTF-8"@.len() != "UTF-16LE"@.len());
            }
            let utf8 = "UTF-8".to_owned();
            let utf16 = "UTF-16LE".to_owned();
            if name == utf8 {
                Some(TextEncoding::Utf8)
            } else if name == utf16 {
                Some(TextEncoding::Utf16Le)
            } else {
                Some(TextEncoding::Labelled(vstd::slice::slice_to_vec(label)))
            }
        },
    }
}

/// A character with ASCII upper case letters mapped to lower case.
pub open spec fn ascii_lower(c: char) -> char {
    if 'A' <= c && c <= 'Z' {
        ((c as u32) + 32) as char
    } else {
        c
    }
}

/// Relies on str::to_ascii_lowercase: every ASCII upper case letter mapped to
/// its lower case, every other character kept.
#[verifier::external_body]
pub(crate) fn ascii_lowercase(s: &str) -> (r: String)
    ensures
        r@ == s@.map_values(|c: char| ascii_lower(c)),
{
    s.to_ascii_lowercase()
}

} // verus!
