//! Per-language templates: validation and decomposition.
//!
//! A template is text holding exactly one *source marker* and exactly one
//! *payload marker*, the source marker strictly before the payload marker and
//! never on the same line.  It splits into five regions: the text before the
//! source marker's line (`preamble`), the text before and after the marker on
//! its line (`pre` and `post`, the language's comment delimiters), the text
//! between that line and the payload marker (`middle`), and the text after
//! the payload marker (`postamble`).  Violations are rejected, each with an
//! error naming what was malformed.

use vstd::prelude::*;

use crate::text::{
    copy_range, find_byte_from, find_from, is_at, only_at, rfind_byte_before,
};

verus! {

/// ASCII line feed.
pub const NL: u8 = 10;

/// ASCII carriage return.
pub const CR: u8 = 13;

/// The source marker: `__SOURCE__`.
pub open spec fn source_marker() -> Seq<u8> {
    seq![95u8, 95, 83, 79, 85, 82, 67, 69, 95, 95]
}

/// The payload marker: `__PAYLOAD__`.
pub open spec fn payload_marker() -> Seq<u8> {
    seq![95u8, 95, 80, 65, 89, 76, 79, 65, 68, 95, 95]
}

/// The source marker as bytes.
pub fn source_marker_bytes() -> (r: Vec<u8>)
    ensures
        r@ == source_marker(),
{
    let r: Vec<u8> = vec![95u8, 95, 83, 79, 85, 82, 67, 69, 95, 95];
    proof {
        assert(r@ =~= source_marker());
    }
    r
}

/// The payload marker as bytes.
pub fn payload_marker_bytes() -> (r: Vec<u8>)
    ensures
        r@ == payload_marker(),
{
    let r: Vec<u8> = vec![95u8, 95, 80, 65, 89, 76, 79, 65, 68, 95, 95];
    proof {
        assert(r@ =~= payload_marker());
    }
    r
}

/// `s` holds no newline byte.
pub open spec fn no_nl(s: Seq<u8>) -> bool {
    forall|i: int| 0 <= i < s.len() ==> s[i] != NL
}

/// ASCII alphabetic.
pub open spec fn is_alpha(b: u8) -> bool {
    (65 <= b <= 90) || (97 <= b <= 122)
}

/// A usable language name: nonempty and solely ASCII alphabetic.
pub open spec fn wf_name(s: Seq<u8>) -> bool {
    s.len() > 0 && forall|i: int| 0 <= i < s.len() ==> is_alpha(#[trigger] s[i])
}

pub open spec fn to_upper(b: u8) -> u8 {
    if 97 <= b <= 122 {
        (b - 32) as u8
    } else {
        b
    }
}

pub open spec fn to_lower(b: u8) -> u8 {
    if 65 <= b <= 90 {
        (b + 32) as u8
    } else {
        b
    }
}

/// The canonical form of a language name: first byte upper case, the rest
/// lower case.
pub open spec fn normalize_spec(s: Seq<u8>) -> Seq<u8> {
    Seq::new(s.len(), |i: int| if i == 0 { to_upper(s[i]) } else { to_lower(s[i]) })
}

/// Case-normalizes a language name.
pub fn normalize(name: &[u8]) -> (r: Vec<u8>)
    ensures
        r@ == normalize_spec(name@),
{
    let n = name.len();
    let mut r: Vec<u8> = Vec::new();
    let mut i: usize = 0;
    while i < n
        invariant
            i <= n,
            n == name@.len(),
            r@ =~= normalize_spec(name@).take(i as int),
        decreases n - i,
    {
        let b = name[i];
        if i == 0 {
            if 97 <= b && b <= 122 {
                r.push(b - 32);
            } else {
                r.push(b);
            }
        } else {
            if 65 <= b && b <= 90 {
                r.push(b + 32);
            } else {
                r.push(b);
            }
        }
        proof {
            assert(r@ =~= normalize_spec(name@).take(i + 1));
        }
        i += 1;
    }
    proof {
        assert(r@ =~= normalize_spec(name@));
    }
    r
}

/// Why a template (or its name) was rejected.
#[derive(Debug, Clone, Copy, PartialEq, Eq, Structural)]
pub enum TemplateError {
    /// The language name is empty or holds a non-alphabetic byte.
    BadName,
    /// The template file's name holds no `.`, so no language name can be
    /// taken from it.
    BadFileName,
    /// The source marker does not occur.
    MissingSource,
    /// The source marker occurs more than once.
    DuplicateSource,
    /// The payload marker does not occur.
    MissingPayload,
    /// The payload marker occurs more than once.
    DuplicatePayload,
    /// The payload marker comes before the source marker.
    Misordered,
    /// Both markers sit on one line.
    SameLine,
    /// Two templates define the same language.
    DuplicateLanguage,
}

/// A newline separates the source marker's line from the payload marker.
pub open spec fn newline_between(t: Seq<u8>, i: int, j: int) -> bool {
    exists|k: int| i + source_marker().len() <= k < j && t[k] == NL
}

/// The markers occur exactly once each, at `i` and `j`, the source marker's
/// line ending before the payload marker begins.
pub open spec fn valid_markers(t: Seq<u8>, i: int, j: int) -> bool {
    &&& only_at(t, source_marker(), i)
    &&& only_at(t, payload_marker(), j)
    &&& newline_between(t, i, j)
}

/// The verdict on a raw template, `None` meaning it is well-formed.  The
/// checks run in this order: name, source marker, payload marker, marker
/// order, marker separation.
#[verifier::opaque]
pub open spec fn template_error(name: Seq<u8>, t: Seq<u8>) -> Option<TemplateError> {
    if !wf_name(name) {
        Some(TemplateError::BadName)
    } else if !(exists|i: int| is_at(t, source_marker(), i)) {
        Some(TemplateError::MissingSource)
    } else if !(exists|i: int| only_at(t, source_marker(), i)) {
        Some(TemplateError::DuplicateSource)
    } else if !(exists|j: int| is_at(t, payload_marker(), j)) {
        Some(TemplateError::MissingPayload)
    } else if !(exists|j: int| only_at(t, payload_marker(), j)) {
        Some(TemplateError::DuplicatePayload)
    } else if exists|i: int, j: int|
        #![trigger only_at(t, source_marker(), i), only_at(t, payload_marker(), j)]
        only_at(t, source_marker(), i) && only_at(t, payload_marker(), j) && j < i {
        Some(TemplateError::Misordered)
    } else if exists|i: int, j: int|
        #![trigger only_at(t, source_marker(), i), only_at(t, payload_marker(), j)]
        only_at(t, source_marker(), i) && only_at(t, payload_marker(), j) && i < j
            && !newline_between(t, i, j) {
        Some(TemplateError::SameLine)
    } else {
        None
    }
}

/// Start of the line that position `k` lies on.
pub open spec fn line_start_of(t: Seq<u8>, k: int) -> int
    decreases k,
{
    if k <= 0 {
        0
    } else if t[k - 1] == NL {
        k
    } else {
        line_start_of(t, k - 1)
    }
}

/// End (position of the newline, or of the text) of the line that position
/// `k` lies on.
pub open spec fn line_end_of(t: Seq<u8>, k: int) -> int
    decreases t.len() - k,
{
    if k < 0 || k >= t.len() {
        t.len() as int
    } else if t[k] == NL {
        k
    } else {
        line_end_of(t, k + 1)
    }
}

/// The line end is the first newline at or after `k`, or the end of the
/// text.
pub proof fn lemma_line_end_props(t: Seq<u8>, k: int)
    requires
        0 <= k <= t.len(),
    ensures
        k <= line_end_of(t, k) <= t.len(),
        line_end_of(t, k) == t.len() || t[line_end_of(t, k)] == NL,
        forall|m: int| k <= m < line_end_of(t, k) ==> t[m] != NL,
    decreases t.len() - k,
{
    if k < t.len() && t[k] != NL {
        lemma_line_end_props(t, k + 1);
    }
}

/// The line end lies between `k` and the end of the text.
pub proof fn lemma_line_end_bounds(t: Seq<u8>, k: int)
    requires
        0 <= k <= t.len(),
    ensures
        k <= line_end_of(t, k) <= t.len(),
    decreases t.len() - k,
{
    if k < t.len() && t[k] != NL {
        lemma_line_end_bounds(t, k + 1);
    }
}

pub proof fn lemma_line_start(t: Seq<u8>, k: int, ls: int)
    requires
        0 <= ls <= k <= t.len(),
        ls == 0 || t[ls - 1] == NL,
        forall|m: int| ls <= m < k ==> t[m] != NL,
    ensures
        line_start_of(t, k) == ls,
    decreases k - ls,
{
    if k > ls {
        lemma_line_start(t, k - 1, ls);
    }
}

pub proof fn lemma_line_end(t: Seq<u8>, k: int, le: int)
    requires
        0 <= k <= le <= t.len(),
        le == t.len() || t[le] == NL,
        forall|m: int| k <= m < le ==> t[m] != NL,
    ensures
        line_end_of(t, k) == le,
    decreases le - k,
{
    if k < le {
        lemma_line_end(t, k + 1, le);
    }
}

/// A compiled template: the language's canonical name and the five regions.
#[derive(Debug)]
pub struct Language {
    name: Vec<u8>,
    preamble: Vec<u8>,
    pre: Vec<u8>,
    post: Vec<u8>,
    middle: Vec<u8>,
    postamble: Vec<u8>,
}

/// The mathematical value of a [`Language`].
pub ghost struct LanguageView {
    pub name: Seq<u8>,
    pub preamble: Seq<u8>,
    pub pre: Seq<u8>,
    pub post: Seq<u8>,
    pub middle: Seq<u8>,
    pub postamble: Seq<u8>,
}

impl View for Language {
    type V = LanguageView;

    closed spec fn view(&self) -> LanguageView {
        LanguageView {
            name: self.name@,
            preamble: self.preamble@,
            pre: self.pre@,
            post: self.post@,
            middle: self.middle@,
            postamble: self.postamble@,
        }
    }
}

/// The decomposition of a template with its sole source marker at `i` and
/// its sole payload marker at `j`: the marker's line runs from the byte
/// after the previous newline to the next newline, `pre` and `post` surround
/// the marker on it (`post` loses a carriage return preceding the newline),
/// and `middle` keeps the line's newline.
#[verifier::opaque]
pub open spec fn regions_of(t: Seq<u8>, name: Seq<u8>, i: int, j: int) -> LanguageView {
    let ls = line_start_of(t, i);
    let le = line_end_of(t, i + source_marker().len());
    let le2 = if le > i + source_marker().len() && t[le - 1] == CR {
        le - 1
    } else {
        le
    };
    LanguageView {
        name: normalize_spec(name),
        preamble: t.subrange(0, ls),
        pre: t.subrange(ls, i),
        post: t.subrange(i + source_marker().len(), le2),
        middle: t.subrange(le2, j),
        postamble: t.subrange(j + payload_marker().len(), t.len() as int),
    }
}

impl Language {
    /// Validates `text` as the template of the language called `name` and
    /// splits it into its regions.  Succeeds exactly on a well-formed name
    /// and a template meeting the marker contract; the error reports the
    /// first check that failed.
    pub fn new(name: &[u8], text: &[u8]) -> (r: Result<Language, TemplateError>)
        ensures
            match r {
                Ok(lang) => template_error(name@, text@) is None && wf_name(name@) && no_nl(
                    lang@.pre,
                ) && no_nl(lang@.post) && lang@.name == normalize_spec(name@) && exists|
                    i: int,
                    j: int,
                |
                    #[trigger] valid_markers(text@, i, j) && lang@ == regions_of(
                        text@,
                        name@,
                        i,
                        j,
                    ),
                Err(e) => Some(e) == template_error(name@, text@),
            },
    {
        proof {
            reveal(template_error);
            reveal(regions_of);
        }
        let n = name.len();
        if n == 0 {
            return Err(TemplateError::BadName);
        }
        let mut k: usize = 0;
        while k < n
            invariant
                k <= n,
                n == name@.len(),
                forall|m: int| 0 <= m < k ==> is_alpha(#[trigger] name@[m]),
            decreases n - k,
        {
            let b = name[k];
            if !((65 <= b && b <= 90) || (97 <= b && b <= 122)) {
                proof {
                    reveal(template_error);
                }
                return Err(TemplateError::BadName);
            }
            k += 1;
        }
        assert(wf_name(name@));

        let src = source_marker_bytes();
        let pay = payload_marker_bytes();
        let t = text;
        let tlen = text.len();
        proof {
            assert(source_marker().len() == 10);
            assert(payload_marker().len() == 11);
        }

        let i = match find_from(t, src.as_slice(), 0) {
            None => {
                return Err(TemplateError::MissingSource);
            },
            Some(i) => i,
        };
        assert(i + 10 <= tlen);
        if find_from(t, src.as_slice(), i + 1).is_some() {
            proof {
                let i2 = choose|i2: int|
                    i + 1 <= i2 && is_at(text@, source_marker(), i2);
                assert forall|a: int| !only_at(text@, source_marker(), a) by {
                    if only_at(text@, source_marker(), a) {
                        assert(is_at(text@, source_marker(), i as int));
                        assert(is_at(text@, source_marker(), i2));
                    }
                }
            }
            return Err(TemplateError::DuplicateSource);
        }
        proof {
            assert(only_at(text@, source_marker(), i as int));
        }

        let j = match find_from(t, pay.as_slice(), 0) {
            None => {
                return Err(TemplateError::MissingPayload);
            },
            Some(j) => j,
        };
        assert(j + 11 <= tlen);
        if find_from(t, pay.as_slice(), j + 1).is_some() {
            proof {
                let j2 = choose|j2: int|
                    j + 1 <= j2 && is_at(text@, payload_marker(), j2);
                assert forall|a: int| !only_at(text@, payload_marker(), a) by {
                    if only_at(text@, payload_marker(), a) {
                        assert(is_at(text@, payload_marker(), j as int));
                        assert(is_at(text@, payload_marker(), j2));
                    }
                }
            }
            return Err(TemplateError::DuplicatePayload);
        }
        proof {
            assert(only_at(text@, payload_marker(), j as int));
            assert forall|a: int, b: int|
                #![trigger only_at(text@, source_marker(), a), only_at(text@, payload_marker(), b)]
                only_at(text@, source_marker(), a) && only_at(
                    text@,
                    payload_marker(),
                    b,
                ) implies a == i && b == j by {
                assert(is_at(text@, source_marker(), i as int));
                assert(is_at(text@, payload_marker(), j as int));
            }
            assert(j != i) by {
                if j == i {
                    assert(text@.subrange(i as int, i + 10)[2] == source_marker()[2]);
                    assert(text@.subrange(j as int, j + 11)[2] == payload_marker()[2]);
                }
            }
        }
        if j < i {
            return Err(TemplateError::Misordered);
        }

        let knl = find_byte_from(t, NL, i + 10);
        if knl.is_none() {
            return Err(TemplateError::SameLine);
        }
        let le = knl.unwrap();
        if le >= j {
            assert(!newline_between(text@, i as int, j as int));
            return Err(TemplateError::SameLine);
        }
        assert(newline_between(text@, i as int, j as int));

        let ls = match rfind_byte_before(t, NL, i) {
            Some(k) => k + 1,
            None => 0,
        };
        let le2 = if le > i + 10 && t[le - 1] == CR {
            le - 1
        } else {
            le
        };
        proof {
            lemma_line_start(text@, i as int, ls as int);
            lemma_line_end(text@, i + 10, le as int);
        }
        let lang = Language {
            name: normalize(name),
            preamble: copy_range(t, 0, ls),
            pre: copy_range(t, ls, i),
            post: copy_range(t, i + 10, le2),
            middle: copy_range(t, le2, j),
            postamble: copy_range(t, j + 11, text.len()),
        };
        proof {
            assert(valid_markers(text@, i as int, j as int));
            assert(lang@ == regions_of(text@, name@, i as int, j as int));
        }
        Ok(lang)
    }

    /// The language's canonical name.
    pub fn name(&self) -> (r: &Vec<u8>)
        ensures
            r@ == self@.name,
    {
        &self.name
    }

    /// The text before the source marker's line.
    pub fn preamble(&self) -> (r: &Vec<u8>)
        ensures
            r@ == self@.preamble,
    {
        &self.preamble
    }

    /// The comment opener: the text before the source marker on its line.
    pub fn pre(&self) -> (r: &Vec<u8>)
        ensures
            r@ == self@.pre,
    {
        &self.pre
    }

    /// The comment closer: the text after the source marker on its line.
    pub fn post(&self) -> (r: &Vec<u8>)
        ensures
            r@ == self@.post,
    {
        &self.post
    }

    /// The text between the source marker's line and the payload marker.
    pub fn middle(&self) -> (r: &Vec<u8>)
        ensures
            r@ == self@.middle,
    {
        &self.middle
    }

    /// The text after the payload marker.
    pub fn postamble(&self) -> (r: &Vec<u8>)
        ensures
            r@ == self@.postamble,
    {
        &self.postamble
    }
}

} // verus!
