//! The compiled template corpus: one validated template per language, in a
//! stable sorted order.
//!
//! [`Corpus::compile`] ingests `(file name, raw text)` pairs — the language
//! name being the file name's portion before its first `.` — validates each
//! template, rejects duplicate languages, and yields the closed, sorted
//! language enumeration that rendering selects from.

use vstd::prelude::*;

use crate::order::{
    bytes_eq, bytes_le, bytes_le_exec, bytes_lt, lemma_bytes_le_total, lemma_bytes_le_trans,
    lemma_bytes_lt_trans,
};
use crate::template::{
    normalize, normalize_spec, regions_of, template_error, valid_markers, Language, LanguageView,
    TemplateError,
};
use crate::text::copy_range;

verus! {

/// ASCII full stop.
pub const DOT: u8 = 46;

/// The file name holds a `.`, so a language name can be taken from it.
pub open spec fn has_dot(s: Seq<u8>) -> bool {
    exists|d: int| 0 <= d < s.len() && s[d] == DOT
}

/// `st` is the file name's portion before its first `.`.
pub open spec fn stem_of(s: Seq<u8>, st: Seq<u8>) -> bool {
    exists|d: int|
        #![trigger s.take(d)]
        0 <= d < s.len() && s[d] == DOT && (forall|m: int| 0 <= m < d ==> s[m] != DOT) && st
            == s.take(d)
}

/// `nm` is the canonical name of the language the template file defines.
#[verifier::opaque]
pub open spec fn canon_of(fname: Seq<u8>, nm: Seq<u8>) -> bool {
    exists|st: Seq<u8>| #[trigger] stem_of(fname, st) && nm == normalize_spec(st)
}

/// This template file compiles to this language record.
#[verifier::opaque]
pub open spec fn lang_matches(fname: Seq<u8>, text: Seq<u8>, v: LanguageView) -> bool {
    exists|st: Seq<u8>|
        #[trigger] stem_of(fname, st) && template_error(st, text) is None && exists|i: int, j: int|
            #[trigger] valid_markers(text, i, j) && v == regions_of(text, st, i, j)
}

/// The file is acceptable: its name holds a dot and its template meets the
/// marker contract under a well-formed language name.
#[verifier::opaque]
pub open spec fn file_ok(fname: Seq<u8>, text: Seq<u8>) -> bool {
    exists|st: Seq<u8>| #[trigger] stem_of(fname, st) && template_error(st, text) is None
}

/// The whole corpus compiles: every file is acceptable and no two files
/// define the same language.
pub open spec fn corpus_ok(files: Seq<(Vec<u8>, Vec<u8>)>) -> bool {
    &&& forall|fi: int| 0 <= fi < files.len() ==> file_ok(files[fi].0@, #[trigger] files[fi].1@)
    &&& forall|a: int, b: int, nm: Seq<u8>|
        0 <= a < b < files.len() && #[trigger] canon_of(files[a].0@, nm) && #[trigger] canon_of(
            files[b].0@,
            nm,
        ) ==> false
}

/// Why compilation failed, and for which language (or file name).
#[derive(Debug)]
pub struct CompileError {
    /// The language name the offending file defines — the file name itself
    /// where none could be taken from it.
    pub name: Vec<u8>,
    /// What was malformed.
    pub error: TemplateError,
}

/// The error blames one of the files.
pub open spec fn blames(files: Seq<(Vec<u8>, Vec<u8>)>, name: Seq<u8>, e: TemplateError) -> bool {
    ||| exists|fi: int|
        0 <= fi < files.len() && !has_dot(#[trigger] files[fi].0@) && e
            == TemplateError::BadFileName && name == files[fi].0@
    ||| exists|fi: int, st: Seq<u8>|
        0 <= fi < files.len() && #[trigger] stem_of(files[fi].0@, st) && Some(e)
            == template_error(st, files[fi].1@) && name == st
    ||| (e == TemplateError::DuplicateLanguage && exists|a: int, b: int|
        0 <= a < files.len() && 0 <= b < files.len() && a != b && #[trigger] canon_of(
            files[a].0@,
            name,
        ) && #[trigger] canon_of(files[b].0@, name))
}

/// The names of the corpus are strictly sorted, so each occurs once.
pub open spec fn names_sorted(s: Seq<LanguageView>) -> bool {
    forall|a: int, b: int|
        0 <= a < b < s.len() ==> bytes_lt(#[trigger] s[a].name, #[trigger] s[b].name)
}

/// The values of a sequence of languages.
pub open spec fn views(s: Seq<Language>) -> Seq<LanguageView> {
    Seq::new(s.len(), |i: int| s[i]@)
}

/// `slot` places each of the first `fi` files' languages in the corpus.
pub open spec fn placed(
    files: Seq<(Vec<u8>, Vec<u8>)>,
    fi: int,
    s: Seq<LanguageView>,
    slot: Seq<int>,
) -> bool {
    &&& slot.len() == fi
    &&& forall|k: int|
        0 <= k < fi ==> 0 <= #[trigger] slot[k] < s.len() && lang_matches(
            files[k].0@,
            files[k].1@,
            s[slot[k]],
        )
}

/// `owner` names, for each language of the corpus, the file among the first
/// `fi` that it came from.
pub open spec fn owned(
    files: Seq<(Vec<u8>, Vec<u8>)>,
    fi: int,
    s: Seq<LanguageView>,
    owner: Seq<int>,
) -> bool {
    &&& owner.len() == s.len()
    &&& forall|ci: int|
        0 <= ci < s.len() ==> 0 <= #[trigger] owner[ci] < fi && lang_matches(
            files[owner[ci]].0@,
            files[owner[ci]].1@,
            s[ci],
        )
}

/// The loop invariant of compilation: the corpus built so far holds exactly
/// the languages of the first `fi` files, sorted by name, those files all
/// acceptable and mutually distinct.
pub open spec fn compiled_so_far(files: Seq<(Vec<u8>, Vec<u8>)>, fi: int, s: Seq<LanguageView>) -> bool {
    &&& s.len() == fi
    &&& names_sorted(s)
    &&& forall|k: int| 0 <= k < fi ==> file_ok(files[k].0@, #[trigger] files[k].1@)
    &&& exists|slot: Seq<int>| #[trigger] placed(files, fi, s, slot)
    &&& exists|owner: Seq<int>| #[trigger] owned(files, fi, s, owner)
    &&& forall|a: int, b: int, nm: Seq<u8>|
        0 <= a < b < fi && #[trigger] canon_of(files[a].0@, nm) && #[trigger] canon_of(
            files[b].0@,
            nm,
        ) ==> false
}

/// A file name's stem (its portion before the first `.`) is unique.
proof fn lemma_stem_unique(s: Seq<u8>, st1: Seq<u8>, st2: Seq<u8>)
    requires
        stem_of(s, st1),
        stem_of(s, st2),
    ensures
        st1 == st2,
{
    let d1 = choose|d: int|
        0 <= d < s.len() && s[d] == DOT && (forall|m: int| 0 <= m < d ==> s[m] != DOT) && st1
            == s.take(d);
    let d2 = choose|d: int|
        0 <= d < s.len() && s[d] == DOT && (forall|m: int| 0 <= m < d ==> s[m] != DOT) && st2
            == s.take(d);
    assert(d1 == d2);
}

/// A compiled language's name is the canonical name of its file.
proof fn lemma_matches_canon(fname: Seq<u8>, text: Seq<u8>, v: LanguageView)
    requires
        lang_matches(fname, text, v),
    ensures
        canon_of(fname, v.name),
{
    reveal(lang_matches);
    reveal(canon_of);
    let st = choose|st: Seq<u8>|
        #[trigger] stem_of(fname, st) && template_error(st, text) is None && exists|i: int, j: int|
            #[trigger] valid_markers(text, i, j) && v == regions_of(text, st, i, j);
    assert(v.name == normalize_spec(st)) by {
        reveal(crate::template::regions_of);
    }
}

/// Inserting a name between the strictly smaller and the strictly larger
/// keeps the names strictly sorted.
proof fn lemma_names_insert_sorted(s: Seq<LanguageView>, v: LanguageView, p: int)
    requires
        0 <= p <= s.len(),
        names_sorted(s),
        forall|k: int| 0 <= k < p ==> bytes_lt(#[trigger] s[k].name, v.name),
        forall|k: int| p <= k < s.len() ==> bytes_lt(v.name, #[trigger] s[k].name),
    ensures
        names_sorted(s.insert(p, v)),
{
    let t = s.insert(p, v);
    s.insert_ensures(p, v);
    assert forall|a: int, b: int| 0 <= a < b < t.len() implies bytes_lt(
        #[trigger] t[a].name,
        #[trigger] t[b].name,
    ) by {
        if a < p && b < p {
            assert(bytes_lt(s[a].name, s[b].name));
        } else if a < p && b == p {
            assert(bytes_lt(s[a].name, v.name));
        } else if a < p && b > p {
            assert(bytes_lt(s[a].name, s[b - 1].name));
        } else if a == p && b > p {
            assert(bytes_lt(v.name, s[b - 1].name));
        } else {
            assert(bytes_lt(s[a - 1].name, s[b - 1].name));
        }
    }
}

/// Every already-placed file's language survives the insertion.
proof fn lemma_step_forward(
    files: Seq<(Vec<u8>, Vec<u8>)>,
    fi: int,
    ov: Seq<LanguageView>,
    v: LanguageView,
    p: int,
    slot: Seq<int>,
)
    requires
        0 <= fi < files.len(),
        0 <= p <= ov.len(),
        placed(files, fi, ov, slot),
        lang_matches(files[fi].0@, files[fi].1@, v),
    ensures
        placed(
            files,
            fi + 1,
            ov.insert(p, v),
            Seq::new(
                (fi + 1) as nat,
                |k: int|
                    if k == fi {
                        p
                    } else if slot[k] >= p {
                        slot[k] + 1
                    } else {
                        slot[k]
                    },
            ),
        ),
{
    let nv = ov.insert(p, v);
    let ns = Seq::new(
        (fi + 1) as nat,
        |k: int|
            if k == fi {
                p
            } else if slot[k] >= p {
                slot[k] + 1
            } else {
                slot[k]
            },
    );
    ov.insert_ensures(p, v);
    assert forall|k: int| 0 <= k < fi + 1 implies 0 <= #[trigger] ns[k] < nv.len()
        && lang_matches(files[k].0@, files[k].1@, nv[ns[k]]) by {
        if k == fi {
            assert(nv[p] == v);
        } else if slot[k] >= p {
            assert(nv[slot[k] + 1] == ov[slot[k]]);
        } else {
            assert(nv[slot[k]] == ov[slot[k]]);
        }
    }
}

/// Every language of the widened corpus came from a placed file.
proof fn lemma_step_backward(
    files: Seq<(Vec<u8>, Vec<u8>)>,
    fi: int,
    ov: Seq<LanguageView>,
    v: LanguageView,
    p: int,
    owner: Seq<int>,
)
    requires
        0 <= fi < files.len(),
        0 <= p <= ov.len(),
        owned(files, fi, ov, owner),
        lang_matches(files[fi].0@, files[fi].1@, v),
    ensures
        owned(files, fi + 1, ov.insert(p, v), owner.insert(p, fi)),
{
    let nv = ov.insert(p, v);
    let no = owner.insert(p, fi);
    ov.insert_ensures(p, v);
    owner.insert_ensures(p, fi);
    assert forall|ci: int| 0 <= ci < nv.len() implies 0 <= #[trigger] no[ci] < fi + 1
        && lang_matches(files[no[ci]].0@, files[no[ci]].1@, nv[ci]) by {
        if ci < p {
            assert(nv[ci] == ov[ci] && no[ci] == owner[ci]);
        } else if ci == p {
            assert(nv[ci] == v && no[ci] == fi);
        } else {
            assert(nv[ci] == ov[ci - 1] && no[ci] == owner[ci - 1]);
        }
    }
}

/// If the new language's name differs from every name already placed, no
/// two placed files define one language.
proof fn lemma_step_distinct(
    files: Seq<(Vec<u8>, Vec<u8>)>,
    fi: int,
    ov: Seq<LanguageView>,
    v: LanguageView,
    st: Seq<u8>,
    slot: Seq<int>,
)
    requires
        0 <= fi < files.len(),
        placed(files, fi, ov, slot),
        forall|a: int, b: int, nm: Seq<u8>|
            0 <= a < b < fi && #[trigger] canon_of(files[a].0@, nm) && #[trigger] canon_of(
                files[b].0@,
                nm,
            ) ==> false,
        stem_of(files[fi].0@, st),
        v.name == normalize_spec(st),
        forall|ci: int| 0 <= ci < ov.len() ==> #[trigger] ov[ci].name != v.name,
    ensures
        forall|a: int, b: int, nm: Seq<u8>|
            0 <= a < b < fi + 1 && #[trigger] canon_of(files[a].0@, nm) && #[trigger] canon_of(
                files[b].0@,
                nm,
            ) ==> false,
{
    assert forall|a: int, b: int, nm: Seq<u8>|
        0 <= a < b < fi + 1 && #[trigger] canon_of(files[a].0@, nm) && #[trigger] canon_of(
            files[b].0@,
            nm,
        ) implies false by {
        if b == fi {
            reveal(canon_of);
            let s0 = choose|s0: Seq<u8>|
                #[trigger] stem_of(files[b].0@, s0) && nm == normalize_spec(s0);
            lemma_stem_unique(files[b].0@, s0, st);
            assert(nm == v.name);
            let ci = slot[a];
            lemma_matches_canon(files[a].0@, files[a].1@, ov[ci]);
            let s1 = choose|s1: Seq<u8>|
                #[trigger] stem_of(files[a].0@, s1) && ov[ci].name == normalize_spec(s1);
            let s2 = choose|s2: Seq<u8>|
                #[trigger] stem_of(files[a].0@, s2) && nm == normalize_spec(s2);
            lemma_stem_unique(files[a].0@, s1, s2);
            assert(ov[ci].name == nm && ov[ci].name != v.name);
        }
    }
}

/// A validated template is a language of its file.
proof fn lemma_matches_intro(fname: Seq<u8>, text: Seq<u8>, v: LanguageView, st: Seq<u8>)
    requires
        stem_of(fname, st),
        template_error(st, text) is None,
        exists|i: int, j: int|
            #[trigger] valid_markers(text, i, j) && v == regions_of(text, st, i, j),
    ensures
        lang_matches(fname, text, v),
        file_ok(fname, text),
{
    reveal(lang_matches);
    reveal(file_ok);
}

/// One compilation step: a fresh language, its name strictly between its
/// sorted neighbours, extends the corpus of the first `fi` files to the
/// corpus of the first `fi + 1`.
proof fn lemma_compile_step(
    files: Seq<(Vec<u8>, Vec<u8>)>,
    fi: int,
    ov: Seq<LanguageView>,
    v: LanguageView,
    p: int,
    st: Seq<u8>,
)
    requires
        0 <= fi < files.len(),
        0 <= p <= ov.len(),
        compiled_so_far(files, fi, ov),
        stem_of(files[fi].0@, st),
        v.name == normalize_spec(st),
        lang_matches(files[fi].0@, files[fi].1@, v),
        file_ok(files[fi].0@, files[fi].1@),
        forall|k: int| 0 <= k < p ==> bytes_lt(#[trigger] ov[k].name, v.name),
        forall|k: int| p <= k < ov.len() ==> bytes_lt(v.name, #[trigger] ov[k].name),
    ensures
        compiled_so_far(files, fi + 1, ov.insert(p, v)),
{
    ov.insert_ensures(p, v);
    lemma_names_insert_sorted(ov, v, p);
    let slot = choose|slot: Seq<int>| #[trigger] placed(files, fi, ov, slot);
    let owner = choose|owner: Seq<int>| #[trigger] owned(files, fi, ov, owner);
    lemma_step_forward(files, fi, ov, v, p, slot);
    lemma_step_backward(files, fi, ov, v, p, owner);
    assert forall|ci: int| 0 <= ci < ov.len() implies #[trigger] ov[ci].name != v.name by {
        if ci < p {
            assert(bytes_lt(ov[ci].name, v.name));
        } else {
            assert(bytes_lt(v.name, ov[ci].name));
        }
    }
    lemma_step_distinct(files, fi, ov, v, st, slot);
}

/// The validated template corpus: the supported languages, each with its
/// compiled template, sorted by canonical name.
#[derive(Debug)]
pub struct Corpus {
    langs: Vec<Language>,
}

impl View for Corpus {
    type V = Seq<LanguageView>;

    closed spec fn view(&self) -> Seq<LanguageView> {
        views(self.langs@)
    }
}

impl Corpus {
    /// How many languages the corpus holds.
    pub fn len(&self) -> (r: usize)
        ensures
            r == self@.len(),
    {
        self.langs.len()
    }

    /// The language at a position of the sorted enumeration.
    pub fn get(&self, i: usize) -> (r: &Language)
        requires
            i < self@.len(),
        ensures
            r@ == self@[i as int],
    {
        &self.langs[i]
    }

    /// Compiles a set of template files into a corpus.  Succeeds exactly
    /// when every file name yields a language name, every template meets the
    /// marker contract, and no language is defined twice; the corpus then
    /// holds exactly those languages, sorted by name.
    pub fn compile(files: &[(Vec<u8>, Vec<u8>)]) -> (r: Result<Corpus, CompileError>)
        ensures
            r is Ok <==> corpus_ok(files@),
            match r {
                Ok(c) => compiled_so_far(files@, files@.len() as int, c@),
                Err(e) => blames(files@, e.name@, e.error),
            },
    {
        let n = files.len();
        let mut langs: Vec<Language> = Vec::new();
        let mut fi: usize = 0;
        proof {
            assert(views(langs@).len() == 0);
            assert(placed(files@, 0, views(langs@), Seq::<int>::empty()));
            assert(owned(files@, 0, views(langs@), Seq::<int>::empty()));
        }
        while fi < n
            invariant
                fi <= n,
                n == files@.len(),
                compiled_so_far(files@, fi as int, views(langs@)),
            decreases n - fi,
        {
            let fname = &files[fi].0;
            let text = &files[fi].1;
            let d = match crate::text::find_byte_from(fname.as_slice(), DOT, 0) {
                None => {
                    proof {
                        assert(!has_dot(fname@));
                        assert(!file_ok(files@[fi as int].0@, files@[fi as int].1@)) by {
                            reveal(file_ok);
                            if file_ok(fname@, text@) {
                                let s0 = choose|s0: Seq<u8>|
                                    stem_of(fname@, s0) && template_error(s0, text@) is None;
                            }
                        }
                    }
                    let nm = copy_range(fname.as_slice(), 0, fname.len());
                    proof {
                        assert(nm@ =~= fname@);
                    }
                    return Err(CompileError { name: nm, error: TemplateError::BadFileName });
                },
                Some(d) => d,
            };
            let st = copy_range(fname.as_slice(), 0, d);
            proof {
                assert(stem_of(fname@, st@));
            }
            let lang = match Language::new(st.as_slice(), text.as_slice()) {
                Err(e) => {
                    proof {
                        assert(!file_ok(files@[fi as int].0@, files@[fi as int].1@)) by {
                            reveal(file_ok);
                            if file_ok(fname@, text@) {
                                let s0 = choose|s0: Seq<u8>|
                                    stem_of(fname@, s0) && template_error(s0, text@) is None;
                                lemma_stem_unique(fname@, s0, st@);
                            }
                        }
                    }
                    return Err(CompileError { name: st, error: e });
                },
                Ok(lang) => lang,
            };
            let p = Self::name_position(&langs, lang.name());
            if p < langs.len() && bytes_eq(langs[p].name().as_slice(), lang.name().as_slice()) {
                proof {
                    let ov = views(langs@);
                    let nm = ov[p as int].name;
                    assert(nm == lang@.name);
                    assert(canon_of(fname@, nm)) by {
                        reveal(canon_of);
                        assert(stem_of(fname@, st@) && nm == normalize_spec(st@));
                    }
                    let owner = choose|owner: Seq<int>|
                        #[trigger] owned(files@, fi as int, ov, owner);
                    let a = owner[p as int];
                    lemma_matches_canon(files@[a].0@, files@[a].1@, ov[p as int]);
                    assert(canon_of(files@[a].0@, nm) && canon_of(files@[fi as int].0@, nm));
                    assert(!corpus_ok(files@));
                }
                let nm = copy_range(lang.name().as_slice(), 0, lang.name().len());
                proof {
                    assert(nm@ =~= lang@.name);
                }
                return Err(CompileError { name: nm, error: TemplateError::DuplicateLanguage });
            }
            proof {
                let ov = views(langs@);
                let nm = lang@.name;
                assert forall|ci: int| p <= ci < ov.len() implies bytes_lt(
                    nm,
                    #[trigger] ov[ci].name,
                ) by {
                    assert(bytes_le(nm, ov[p as int].name) && nm != ov[p as int].name);
                    if ci > p {
                        lemma_bytes_lt_trans(nm, ov[p as int].name, ov[ci].name);
                    }
                }
            }
            let ghost ov = views(langs@);
            let ghost newlang = lang@;
            langs.insert(p, lang);
            proof {
                assert(views(langs@) =~= ov.insert(p as int, newlang));
                lemma_matches_intro(files@[fi as int].0@, files@[fi as int].1@, newlang, st@);
                lemma_compile_step(files@, fi as int, ov, newlang, p as int, st@);
            }
            fi += 1;
        }
        let c = Corpus { langs };
        proof {
            assert(corpus_ok(files@));
        }
        Ok(c)
    }

    /// The position at which a language called `nm` can be inserted, every
    /// earlier name being strictly smaller and every name from it on at
    /// least `nm`.
    fn name_position(langs: &Vec<Language>, nm: &Vec<u8>) -> (p: usize)
        requires
            names_sorted(views(langs@)),
        ensures
            p <= langs@.len(),
            forall|k: int| 0 <= k < p ==> bytes_lt(#[trigger] views(langs@)[k].name, nm@),
            forall|k: int|
                p <= k < langs@.len() ==> bytes_le(nm@, #[trigger] views(langs@)[k].name),
    {
        let n = langs.len();
        let mut p: usize = 0;
        while p < n && Self::name_lt(langs[p].name(), nm)
            invariant
                p <= n,
                n == langs@.len(),
                names_sorted(views(langs@)),
                forall|k: int| 0 <= k < p ==> bytes_lt(#[trigger] views(langs@)[k].name, nm@),
            decreases n - p,
        {
            p += 1;
        }
        proof {
            if p < langs@.len() {
                let vp = views(langs@)[p as int].name;
                assert(!bytes_lt(vp, nm@));
                lemma_bytes_le_total(vp, nm@);
                assert(bytes_le(nm@, vp));
                assert forall|k: int| p <= k < langs@.len() implies bytes_le(
                    nm@,
                    #[trigger] views(langs@)[k].name,
                ) by {
                    if k > p {
                        assert(bytes_lt(vp, views(langs@)[k].name));
                        lemma_bytes_le_trans(nm@, vp, views(langs@)[k].name);
                    }
                }
            }
        }
        p
    }

    /// Whether `a` comes strictly before `b`.
    fn name_lt(a: &Vec<u8>, b: &Vec<u8>) -> (r: bool)
        ensures
            r == bytes_lt(a@, b@),
    {
        bytes_le_exec(a.as_slice(), b.as_slice()) && !bytes_eq(a.as_slice(), b.as_slice())
    }

    /// Selects a language by name, case-insensitively: the query is put in
    /// canonical form and looked up among the corpus's names.
    pub fn select(&self, query: &[u8]) -> (r: Option<usize>)
        ensures
            match r {
                Some(ci) => ci < self@.len() && self@[ci as int].name == normalize_spec(query@),
                None => forall|ci: int|
                    0 <= ci < self@.len() ==> #[trigger] self@[ci].name != normalize_spec(query@),
            },
    {
        let nm = normalize(query);
        let n = self.langs.len();
        let mut ci: usize = 0;
        while ci < n
            invariant
                ci <= n,
                n == self@.len(),
                nm@ == normalize_spec(query@),
                forall|k: int| 0 <= k < ci ==> #[trigger] self@[k].name != normalize_spec(query@),
            decreases n - ci,
        {
            if bytes_eq(self.langs[ci].name().as_slice(), nm.as_slice()) {
                return Some(ci);
            }
            ci += 1;
        }
        None
    }
}

} // verus!
