//! Source files to be inlined into the rendered output.
//!
//! A [`SourceFile`] pairs a caller-supplied name (the path it was collected
//! under, kept verbatim) with its UTF-8 content.  [`SourceFile::load`] puts a
//! collection of them into rendering order: sorted by name, then by content,
//! so that the same set of files always renders the same way no matter how
//! they were gathered.

use vstd::multiset::Multiset;
use vstd::prelude::*;
use vstd::relations::{sorted_by, total_ordering};
use vstd::seq_lib::group_to_multiset_ensures;
use vstd::seq_lib::lemma_multiset_commutative;
use vstd::seq_lib::lemma_sorted_unique;

use crate::order::{
    bytes_eq, bytes_le, bytes_le_exec, lemma_bytes_le_antisym, lemma_bytes_le_refl,
    lemma_bytes_le_total, lemma_bytes_le_trans,
};

verus! {

broadcast use group_to_multiset_ensures;

/// One file (name and content) loaded in memory.
pub struct SourceFile {
    name: Vec<u8>,
    code: Vec<u8>,
}

/// The mathematical value of a [`SourceFile`].
pub ghost struct SourceView {
    pub name: Seq<u8>,
    pub code: Seq<u8>,
}

impl View for SourceFile {
    type V = SourceView;

    closed spec fn view(&self) -> SourceView {
        SourceView { name: self.name@, code: self.code@ }
    }
}

/// The values of a sequence of source files.
pub open spec fn views(s: Seq<SourceFile>) -> Seq<SourceView> {
    Seq::new(s.len(), |i: int| s[i]@)
}

/// The rendering order: by name, then by content for equal names.
pub open spec fn src_le(a: SourceView, b: SourceView) -> bool {
    if a.name == b.name {
        bytes_le(a.code, b.code)
    } else {
        bytes_le(a.name, b.name)
    }
}

/// The rendering order as a relation, for use with `sorted_by`.
pub open spec fn src_ord() -> spec_fn(SourceView, SourceView) -> bool {
    |a: SourceView, b: SourceView| src_le(a, b)
}

/// One of any two files comes no later than the other.
pub proof fn lemma_src_total(a: SourceView, b: SourceView)
    ensures
        src_le(a, b) || src_le(b, a),
{
    if a.name == b.name {
        lemma_bytes_le_total(a.code, b.code);
    } else {
        lemma_bytes_le_total(a.name, b.name);
    }
}

/// The rendering order is transitive.
pub proof fn lemma_src_trans(a: SourceView, b: SourceView, c: SourceView)
    requires
        src_le(a, b),
        src_le(b, c),
    ensures
        src_le(a, c),
{
    if a.name == b.name && b.name == c.name {
        lemma_bytes_le_trans(a.code, b.code, c.code);
    } else if a.name == b.name || b.name == c.name {
        // the name comparison deciding the hypothesis decides the conclusion
    } else if a.name == c.name {
        lemma_bytes_le_antisym(a.name, b.name);
    } else {
        lemma_bytes_le_trans(a.name, b.name, c.name);
    }
}

/// The rendering order is a total order, so sorting by it is canonical.
pub proof fn lemma_src_ord_total()
    ensures
        total_ordering(src_ord()),
{
    let r = src_ord();
    assert forall|a: SourceView| #[trigger] r(a, a) by {
        lemma_bytes_le_refl(a.code);
        lemma_bytes_le_refl(a.name);
    }
    assert forall|a: SourceView, b: SourceView| #[trigger] r(a, b) && #[trigger] r(b, a) implies a
        == b by {
        if a.name == b.name {
            lemma_bytes_le_antisym(a.code, b.code);
        } else {
            lemma_bytes_le_antisym(a.name, b.name);
        }
    }
    assert forall|a: SourceView, b: SourceView, c: SourceView| #[trigger] r(a, b) && #[trigger] r(
        b,
        c,
    ) implies r(a, c) by {
        lemma_src_trans(a, b, c);
    }
    assert forall|a: SourceView, b: SourceView| #[trigger] r(a, b) || #[trigger] r(b, a) by {
        lemma_src_total(a, b);
    }
}

impl SourceFile {
    /// Builds a source file from its name and its content.
    pub fn new(name: Vec<u8>, code: Vec<u8>) -> (r: SourceFile)
        ensures
            r@.name == name@,
            r@.code == code@,
    {
        SourceFile { name, code }
    }

    /// The name (original path) the file was collected under.
    pub fn name(&self) -> (r: &Vec<u8>)
        ensures
            r@ == self@.name,
    {
        &self.name
    }

    /// The content of the file.
    pub fn code(&self) -> (r: &Vec<u8>)
        ensures
            r@ == self@.code,
    {
        &self.code
    }

    /// Puts collected files into rendering order: sorted by name, then by
    /// content, keeping exactly the given files.
    pub fn load(files: Vec<SourceFile>) -> (r: Vec<SourceFile>)
        ensures
            sorted_by(views(r@), src_ord()),
            views(r@).to_multiset() == views(files@).to_multiset(),
    {
        let mut rest = files;
        let mut out: Vec<SourceFile> = Vec::new();
        proof {
            assert(views(out@) =~= Seq::<SourceView>::empty());
            assert(views(out@).to_multiset() =~= Multiset::<SourceView>::empty());
            assert(views(out@).to_multiset().add(views(rest@).to_multiset()) =~= views(
                files@,
            ).to_multiset());
        }
        while rest.len() > 0
            invariant
                sorted_by(views(out@), src_ord()),
                views(out@).to_multiset().add(views(rest@).to_multiset()) == views(
                    files@,
                ).to_multiset(),
            decreases rest.len(),
        {
            let ghost old_rest = rest@;
            let ghost old_out = out@;
            let x = rest.pop().unwrap();
            proof {
                assert(views(old_rest).drop_last() =~= views(rest@));
                assert(views(old_rest) =~= views(rest@).push(x@));
                assert(views(rest@).push(x@).to_multiset() =~= views(rest@).to_multiset().insert(
                    x@,
                ));
            }
            let p = Self::position(&out, &x);
            out.insert(p, x);
            proof {
                lemma_insert_views(old_out, x, p as int);
                lemma_insert_sorted(views(old_out), x@, p as int);
                lemma_insert_multiset(views(old_out), p as int, x@);
                assert(views(out@).to_multiset().add(views(rest@).to_multiset()) =~= views(
                    files@,
                ).to_multiset());
            }
        }
        proof {
            assert(views(rest@) =~= Seq::<SourceView>::empty());
            assert(views(rest@).to_multiset() =~= Multiset::<SourceView>::empty());
            assert(views(out@).to_multiset() =~= views(files@).to_multiset());
        }
        out
    }

    /// The position in sorted `out` at which `x` can be inserted so that the
    /// result stays sorted.
    fn position(out: &Vec<SourceFile>, x: &SourceFile) -> (p: usize)
        requires
            sorted_by(views(out@), src_ord()),
        ensures
            p <= out@.len(),
            forall|k: int| 0 <= k < p ==> src_le(#[trigger] views(out@)[k], x@),
            forall|k: int| p <= k < out@.len() ==> src_le(x@, #[trigger] views(out@)[k]),
    {
        let n = out.len();
        let mut p: usize = 0;
        while p < n && Self::le(&out[p], x)
            invariant
                p <= n,
                n == out@.len(),
                sorted_by(views(out@), src_ord()),
                forall|k: int| 0 <= k < p ==> src_le(#[trigger] views(out@)[k], x@),
            decreases n - p,
        {
            p += 1;
        }
        proof {
            if p < out@.len() {
                let vp = views(out@)[p as int];
                assert(!src_le(vp, x@));
                lemma_src_total(vp, x@);
                assert forall|k: int| p <= k < out@.len() implies src_le(
                    x@,
                    #[trigger] views(out@)[k],
                ) by {
                    if k > p {
                        assert(src_ord()(views(out@)[p as int], views(out@)[k]));
                        lemma_src_trans(x@, vp, views(out@)[k]);
                    }
                }
            }
        }
        p
    }

    /// Whether `a` comes no later than `b` in rendering order.
    fn le(a: &SourceFile, b: &SourceFile) -> (r: bool)
        ensures
            r == src_le(a@, b@),
    {
        if bytes_eq(a.name.as_slice(), b.name.as_slice()) {
            bytes_le_exec(a.code.as_slice(), b.code.as_slice())
        } else {
            bytes_le_exec(a.name.as_slice(), b.name.as_slice())
        }
    }
}

/// Inserting a file into a sequence inserts its value into the views.
proof fn lemma_insert_views(s: Seq<SourceFile>, x: SourceFile, p: int)
    requires
        0 <= p <= s.len(),
    ensures
        views(s.insert(p, x)) =~= views(s).insert(p, x@),
{
    s.insert_ensures(p, x);
    views(s).insert_ensures(p, x@);
}

/// Inserting an element anywhere adds it to the multiset of the sequence.
proof fn lemma_insert_multiset<A>(s: Seq<A>, p: int, x: A)
    requires
        0 <= p <= s.len(),
    ensures
        s.insert(p, x).to_multiset() =~= s.to_multiset().insert(x),
{
    let left = s.subrange(0, p);
    let right = s.subrange(p, s.len() as int);
    assert(s =~= left + right);
    assert(s.insert(p, x) =~= left + (seq![x] + right));
    lemma_multiset_commutative(left, right);
    lemma_multiset_commutative(left, seq![x] + right);
    lemma_multiset_commutative(seq![x], right);
    assert(seq![x].to_multiset() =~= Multiset::<A>::empty().insert(x));
}

/// Inserting at the position found keeps the sequence sorted.
proof fn lemma_insert_sorted(s: Seq<SourceView>, x: SourceView, p: int)
    requires
        0 <= p <= s.len(),
        sorted_by(s, src_ord()),
        forall|k: int| 0 <= k < p ==> src_le(#[trigger] s[k], x),
        forall|k: int| p <= k < s.len() ==> src_le(x, #[trigger] s[k]),
    ensures
        sorted_by(s.insert(p, x), src_ord()),
{
    let t = s.insert(p, x);
    s.insert_ensures(p, x);
    assert forall|i: int, j: int| 0 <= i < j < t.len() implies src_ord()(t[i], t[j]) by {
        if i < p && j < p {
            assert(src_ord()(s[i], s[j]));
        } else if i < p && j == p {
            assert(src_le(s[i], x));
        } else if i < p && j > p {
            assert(src_ord()(s[i], s[j - 1]));
        } else if i == p && j > p {
            assert(src_le(x, s[j - 1]));
        } else if i > p && j > p {
            assert(src_ord()(s[i - 1], s[j - 1]));
        }
    }
}

/// Two sorted sequences holding the same files are the same sequence: the
/// rendering order is canonical, whatever order the files arrived in.
pub proof fn lemma_sorted_views_unique(a: Seq<SourceView>, b: Seq<SourceView>)
    requires
        sorted_by(a, src_ord()),
        sorted_by(b, src_ord()),
        a.to_multiset() == b.to_multiset(),
    ensures
        a == b,
{
    lemma_src_ord_total();
    lemma_sorted_unique(a, b, src_ord());
}

} // verus!
