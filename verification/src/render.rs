//! Rendering: assembling the final output text.
//!
//! The output is the template's `preamble`, then an annotation section in
//! which every line is wrapped in the language's comment delimiters — a
//! provenance note and, per source file, a header and the file's content
//! line by line — then the template's `middle`, the encoded payload, and
//! the `postamble`.  [`render_text`] is the exact value of that text;
//! [`render`] produces it.

use vstd::prelude::*;

use crate::encode::{b64_decode_of, b64_of, compress_encode, gunzip_of, gzip_best_of, is_b64_byte};
use crate::source::{views, SourceFile, SourceView};
use crate::template::{
    lemma_line_end, lemma_line_end_bounds, lemma_line_end_props, line_end_of, no_nl, Language,
    LanguageView, CR, NL,
};
use crate::text::{is_at, push_all};

verus! {

/// The provenance note: ``Generated by `rustcodex` ``.
pub open spec fn generated_note() -> Seq<u8> {
    seq![
        71u8, 101, 110, 101, 114, 97, 116, 101, 100, 32, 98, 121, 32, 96, 114, 117, 115, 116, 99,
        111, 100, 101, 120, 96,
    ]
}

/// The note announcing the source listing:
/// `Heuristically determined source files:`.
pub open spec fn heuristic_note() -> Seq<u8> {
    seq![
        72u8, 101, 117, 114, 105, 115, 116, 105, 99, 97, 108, 108, 121, 32, 100, 101, 116, 101,
        114, 109, 105, 110, 101, 100, 32, 115, 111, 117, 114, 99, 101, 32, 102, 105, 108, 101,
        115, 58,
    ]
}

/// The header put before each file's name: `SOURCE FILE: `.
pub open spec fn source_file_note() -> Seq<u8> {
    seq![83u8, 79, 85, 82, 67, 69, 32, 70, 73, 76, 69, 58, 32]
}

fn generated_note_bytes() -> (r: Vec<u8>)
    ensures
        r@ == generated_note(),
{
    let r: Vec<u8> = vec![
        71u8, 101, 110, 101, 114, 97, 116, 101, 100, 32, 98, 121, 32, 96, 114, 117, 115, 116, 99,
        111, 100, 101, 120, 96,
    ];
    proof {
        assert(r@ =~= generated_note());
    }
    r
}

fn heuristic_note_bytes() -> (r: Vec<u8>)
    ensures
        r@ == heuristic_note(),
{
    let r: Vec<u8> = vec![
        72u8, 101, 117, 114, 105, 115, 116, 105, 99, 97, 108, 108, 121, 32, 100, 101, 116, 101,
        114, 109, 105, 110, 101, 100, 32, 115, 111, 117, 114, 99, 101, 32, 102, 105, 108, 101,
        115, 58,
    ];
    proof {
        assert(r@ =~= heuristic_note());
    }
    r
}

fn source_file_note_bytes() -> (r: Vec<u8>)
    ensures
        r@ == source_file_note(),
{
    let r: Vec<u8> = vec![83u8, 79, 85, 82, 67, 69, 32, 70, 73, 76, 69, 58, 32];
    proof {
        assert(r@ =~= source_file_note());
    }
    r
}

/// One annotated line: the comment opener, the body, the comment closer,
/// and a newline.
pub open spec fn comment_line(pre: Seq<u8>, post: Seq<u8>, body: Seq<u8>) -> Seq<u8> {
    pre + body + post + seq![NL]
}

/// A line with its terminator removed loses a final carriage return too.
pub open spec fn chomp_cr(l: Seq<u8>) -> Seq<u8> {
    if l.len() > 0 && l[l.len() - 1] == CR {
        l.drop_last()
    } else {
        l
    }
}

/// The lines of a text, as `str::lines` yields them: split at each newline,
/// a carriage return before the newline dropped, and a final trailing
/// newline yielding no empty last line.
pub open spec fn split_lines(s: Seq<u8>) -> Seq<Seq<u8>>
    decreases s.len(),
    via split_lines_decreases
{
    if s.len() == 0 {
        Seq::empty()
    } else {
        let e = line_end_of(s, 0);
        if e == s.len() {
            seq![s]
        } else {
            seq![chomp_cr(s.take(e))] + split_lines(s.skip(e + 1))
        }
    }
}

#[via_fn]
proof fn split_lines_decreases(s: Seq<u8>) {
    if s.len() > 0 {
        lemma_line_end_bounds(s, 0);
    }
}

/// The annotated lines for a sequence of code lines.
pub open spec fn lines_block(pre: Seq<u8>, post: Seq<u8>, ls: Seq<Seq<u8>>) -> Seq<u8>
    decreases ls.len(),
{
    if ls.len() == 0 {
        Seq::empty()
    } else {
        comment_line(pre, post, ls[0]) + lines_block(pre, post, ls.drop_first())
    }
}

/// The annotated lines for one source file: a blank line, a header naming
/// it, and its content line by line.
pub open spec fn file_block(pre: Seq<u8>, post: Seq<u8>, f: SourceView) -> Seq<u8> {
    comment_line(pre, post, Seq::empty()) + comment_line(pre, post, source_file_note() + f.name)
        + lines_block(pre, post, split_lines(f.code))
}

/// The annotated lines for all source files, in order.
pub open spec fn files_block(pre: Seq<u8>, post: Seq<u8>, fs: Seq<SourceView>) -> Seq<u8>
    decreases fs.len(),
{
    if fs.len() == 0 {
        Seq::empty()
    } else {
        file_block(pre, post, fs[0]) + files_block(pre, post, fs.drop_first())
    }
}

/// The whole annotation section: the provenance note, the listing note if
/// any file follows, and each file's block.
pub open spec fn inline_block(pre: Seq<u8>, post: Seq<u8>, fs: Seq<SourceView>) -> Seq<u8> {
    comment_line(pre, post, generated_note()) + (if fs.len() > 0 {
        comment_line(pre, post, heuristic_note())
    } else {
        Seq::empty()
    }) + files_block(pre, post, fs)
}

/// The exact output text for a template, ordered source files, and the
/// already-encoded payload.
pub open spec fn render_text(t: LanguageView, fs: Seq<SourceView>, enc: Seq<u8>) -> Seq<u8> {
    t.preamble + inline_block(t.pre, t.post, fs) + t.middle + enc + t.postamble
}

/// The newline-delimited raw lines of a text, terminators dropped; a final
/// trailing newline yields no empty last line.
pub open spec fn raw_lines(s: Seq<u8>) -> Seq<Seq<u8>>
    decreases s.len(),
    via raw_lines_decreases
{
    if s.len() == 0 {
        Seq::empty()
    } else {
        let e = line_end_of(s, 0);
        if e == s.len() {
            seq![s]
        } else {
            seq![s.take(e)] + raw_lines(s.skip(e + 1))
        }
    }
}

#[via_fn]
proof fn raw_lines_decreases(s: Seq<u8>) {
    if s.len() > 0 {
        lemma_line_end_bounds(s, 0);
    }
}

/// Every raw line of the text is wrapped: it begins with the comment opener
/// and ends with the comment closer.
pub open spec fn line_framed(l: Seq<u8>, pre: Seq<u8>, post: Seq<u8>) -> bool {
    &&& l.len() >= pre.len() + post.len()
    &&& l.take(pre.len() as int) == pre
    &&& l.skip(l.len() - post.len()) == post
}

pub open spec fn all_lines_framed(s: Seq<u8>, pre: Seq<u8>, post: Seq<u8>) -> bool {
    forall|li: int|
        0 <= li < raw_lines(s).len() ==> line_framed(#[trigger] raw_lines(s)[li], pre, post)
}

/// The text is a whole number of lines: empty, or closed by a newline.
pub open spec fn nl_terminated(s: Seq<u8>) -> bool {
    s.len() == 0 || s[s.len() - 1] == NL
}

/// The raw lines of terminated text followed by more text are the raw
/// lines of the one and then of the other.
proof fn lemma_raw_lines_app(a: Seq<u8>, b: Seq<u8>)
    requires
        nl_terminated(a),
    ensures
        raw_lines(a + b) == raw_lines(a) + raw_lines(b),
    decreases a.len(),
{
    if a.len() == 0 {
        assert(a + b =~= b);
        assert(raw_lines(a) + raw_lines(b) =~= raw_lines(b));
    } else {
        lemma_line_end_props(a, 0);
        let e = line_end_of(a, 0);
        assert(e < a.len());
        lemma_line_end_props(a + b, 0);
        lemma_line_end((a + b), 0, e);
        assert((a + b).take(e) =~= a.take(e));
        assert((a + b).skip(e + 1) =~= a.skip(e + 1) + b);
        assert(nl_terminated(a.skip(e + 1)));
        lemma_raw_lines_app(a.skip(e + 1), b);
        assert(raw_lines(a + b) =~= raw_lines(a) + raw_lines(b));
    }
}

/// One annotated line is one raw line, wrapped as built.
proof fn lemma_raw_lines_comment(pre: Seq<u8>, post: Seq<u8>, body: Seq<u8>)
    requires
        no_nl(pre),
        no_nl(post),
        no_nl(body),
    ensures
        raw_lines(comment_line(pre, post, body)) == seq![pre + body + post],
        nl_terminated(comment_line(pre, post, body)),
        all_lines_framed(comment_line(pre, post, body), pre, post),
{
    let s = comment_line(pre, post, body);
    let l = pre + body + post;
    let n = l.len() as int;
    assert forall|m: int| 0 <= m < n implies s[m] != NL by {
        if m < pre.len() {
            assert(l[m] == pre[m]);
        } else if m < pre.len() + body.len() {
            assert(l[m] == body[m - pre.len()]);
        } else {
            assert(l[m] == post[m - pre.len() - body.len()]);
        }
    }
    assert(s[n] == NL);
    lemma_line_end(s, 0, n);
    assert(s.take(n) =~= l);
    assert(s.skip(n + 1) =~= Seq::<u8>::empty());
    assert(raw_lines(Seq::<u8>::empty()) =~= Seq::<Seq<u8>>::empty());
    assert(raw_lines(s) =~= seq![l]);
    assert(l.take(pre.len() as int) =~= pre);
    assert(l.skip(l.len() - post.len()) =~= post);
}

/// Wrapped lines followed by wrapped lines are wrapped lines.
proof fn lemma_framed_app(a: Seq<u8>, b: Seq<u8>, pre: Seq<u8>, post: Seq<u8>)
    requires
        nl_terminated(a),
        nl_terminated(b),
        all_lines_framed(a, pre, post),
        all_lines_framed(b, pre, post),
    ensures
        nl_terminated(a + b),
        all_lines_framed(a + b, pre, post),
{
    lemma_raw_lines_app(a, b);
    if b.len() == 0 {
        assert(a + b =~= a);
    } else {
        assert((a + b)[(a + b).len() - 1] == b[b.len() - 1]);
    }
    assert forall|li: int| 0 <= li < raw_lines(a + b).len() implies line_framed(
        #[trigger] raw_lines(a + b)[li],
        pre,
        post,
    ) by {
        if li < raw_lines(a).len() {
            assert(raw_lines(a + b)[li] == raw_lines(a)[li]);
        } else {
            assert(raw_lines(a + b)[li] == raw_lines(b)[li - raw_lines(a).len()]);
        }
    }
}

/// Each line split from a text holds no newline.
proof fn lemma_split_lines_no_nl(s: Seq<u8>)
    ensures
        forall|li: int| 0 <= li < split_lines(s).len() ==> no_nl(#[trigger] split_lines(s)[li]),
    decreases s.len(),
{
    if s.len() > 0 {
        lemma_line_end_props(s, 0);
        let e = line_end_of(s, 0);
        if e == s.len() {
            assert(no_nl(s));
        } else {
            assert(no_nl(s.take(e)));
            assert(no_nl(chomp_cr(s.take(e))));
            lemma_split_lines_no_nl(s.skip(e + 1));
            assert forall|li: int| 0 <= li < split_lines(s).len() implies no_nl(
                #[trigger] split_lines(s)[li],
            ) by {
                if li > 0 {
                    assert(split_lines(s)[li] == split_lines(s.skip(e + 1))[li - 1]);
                }
            }
        }
    }
}

/// The annotated lines of newline-free bodies are all wrapped.
proof fn lemma_lines_block_framed(pre: Seq<u8>, post: Seq<u8>, ls: Seq<Seq<u8>>)
    requires
        no_nl(pre),
        no_nl(post),
        forall|li: int| 0 <= li < ls.len() ==> no_nl(#[trigger] ls[li]),
    ensures
        nl_terminated(lines_block(pre, post, ls)),
        all_lines_framed(lines_block(pre, post, ls), pre, post),
    decreases ls.len(),
{
    if ls.len() == 0 {
        assert(raw_lines(lines_block(pre, post, ls)).len() == 0);
    } else {
        lemma_raw_lines_comment(pre, post, ls[0]);
        lemma_lines_block_framed(pre, post, ls.drop_first());
        lemma_framed_app(
            comment_line(pre, post, ls[0]),
            lines_block(pre, post, ls.drop_first()),
            pre,
            post,
        );
    }
}

/// The whole block of one source file is wrapped, for any file content.
proof fn lemma_file_block_framed(pre: Seq<u8>, post: Seq<u8>, f: SourceView)
    requires
        no_nl(pre),
        no_nl(post),
        no_nl(f.name),
    ensures
        nl_terminated(file_block(pre, post, f)),
        all_lines_framed(file_block(pre, post, f), pre, post),
{
    assert(no_nl(Seq::<u8>::empty()));
    assert(no_nl(source_file_note())) by {
        assert forall|i: int| 0 <= i < source_file_note().len() implies source_file_note()[i]
            != NL by {}
    }
    assert(no_nl(source_file_note() + f.name));
    lemma_raw_lines_comment(pre, post, Seq::<u8>::empty());
    lemma_raw_lines_comment(pre, post, source_file_note() + f.name);
    lemma_split_lines_no_nl(f.code);
    lemma_lines_block_framed(pre, post, split_lines(f.code));
    lemma_framed_app(
        comment_line(pre, post, source_file_note() + f.name),
        lines_block(pre, post, split_lines(f.code)),
        pre,
        post,
    );
    lemma_framed_app(
        comment_line(pre, post, Seq::<u8>::empty()),
        comment_line(pre, post, source_file_note() + f.name) + lines_block(
            pre,
            post,
            split_lines(f.code),
        ),
        pre,
        post,
    );
    assert(file_block(pre, post, f) =~= comment_line(pre, post, Seq::<u8>::empty()) + (
    comment_line(pre, post, source_file_note() + f.name) + lines_block(
        pre,
        post,
        split_lines(f.code),
    )));
}

/// Comment safety: with newline-free comment delimiters and file names,
/// every line of the annotation section opens with the comment opener and
/// closes with the comment closer — whatever the file contents hold, marker
/// strings and embedded newlines included.
pub proof fn lemma_comment_safety(pre: Seq<u8>, post: Seq<u8>, fs: Seq<SourceView>)
    requires
        no_nl(pre),
        no_nl(post),
        forall|fi: int| 0 <= fi < fs.len() ==> no_nl(#[trigger] fs[fi].name),
    ensures
        all_lines_framed(inline_block(pre, post, fs), pre, post),
    decreases fs.len(),
{
    assert(no_nl(generated_note())) by {
        assert forall|i: int| 0 <= i < generated_note().len() implies generated_note()[i]
            != NL by {}
    }
    assert(no_nl(heuristic_note())) by {
        assert forall|i: int| 0 <= i < heuristic_note().len() implies heuristic_note()[i]
            != NL by {}
    }
    lemma_raw_lines_comment(pre, post, generated_note());
    lemma_raw_lines_comment(pre, post, heuristic_note());
    lemma_all_files_framed(pre, post, fs);
    let head = comment_line(pre, post, generated_note());
    let note = if fs.len() > 0 {
        comment_line(pre, post, heuristic_note())
    } else {
        Seq::<u8>::empty()
    };
    assert(nl_terminated(note) && all_lines_framed(note, pre, post)) by {
        if fs.len() == 0 {
            assert(raw_lines(note).len() == 0);
        }
    }
    lemma_framed_app(note, files_block(pre, post, fs), pre, post);
    lemma_framed_app(head, note + files_block(pre, post, fs), pre, post);
    assert(inline_block(pre, post, fs) =~= head + (note + files_block(pre, post, fs)));
}

/// The blocks of all source files are wrapped.
proof fn lemma_all_files_framed(pre: Seq<u8>, post: Seq<u8>, fs: Seq<SourceView>)
    requires
        no_nl(pre),
        no_nl(post),
        forall|fi: int| 0 <= fi < fs.len() ==> no_nl(#[trigger] fs[fi].name),
    ensures
        nl_terminated(files_block(pre, post, fs)),
        all_lines_framed(files_block(pre, post, fs), pre, post),
    decreases fs.len(),
{
    if fs.len() == 0 {
        assert(raw_lines(files_block(pre, post, fs)).len() == 0);
    } else {
        lemma_file_block_framed(pre, post, fs[0]);
        lemma_all_files_framed(pre, post, fs.drop_first());
        lemma_framed_app(
            file_block(pre, post, fs[0]),
            files_block(pre, post, fs.drop_first()),
            pre,
            post,
        );
    }
}

fn push_comment_line(out: &mut Vec<u8>, pre: &[u8], post: &[u8], body: &[u8])
    ensures
        final(out)@ == old(out)@ + comment_line(pre@, post@, body@),
{
    push_all(out, pre);
    push_all(out, body);
    push_all(out, post);
    out.push(NL);
    proof {
        assert(out@ =~= old(out)@ + comment_line(pre@, post@, body@));
    }
}

fn push_code_lines(out: &mut Vec<u8>, pre: &[u8], post: &[u8], code: &[u8])
    ensures
        final(out)@ == old(out)@ + lines_block(pre@, post@, split_lines(code@)),
{
    let n = code.len();
    let mut k: usize = 0;
    proof {
        assert(code@.skip(0) =~= code@);
    }
    while k < n
        invariant
            0 <= k <= n,
            n == code@.len(),
            old(out)@ + lines_block(pre@, post@, split_lines(code@)) == out@ + lines_block(
                pre@,
                post@,
                split_lines(code@.skip(k as int)),
            ),
        decreases n - k,
    {
        let ghost rest = code@.skip(k as int);
        match crate::text::find_byte_from(code, NL, k) {
            Some(e) => {
                proof {
                    lemma_line_end(rest, 0, e - k);
                    assert(rest.take(e - k) =~= code@.subrange(k as int, e as int));
                    assert(rest.skip(e - k + 1) =~= code@.skip(e + 1));
                }
                let e2 = if e > k && code[e - 1] == CR {
                    e - 1
                } else {
                    e
                };
                proof {
                    assert(chomp_cr(rest.take(e - k)) =~= code@.subrange(k as int, e2 as int));
                }
                let body = crate::text::copy_range(code, k, e2);
                push_comment_line(out, pre, post, body.as_slice());
                proof {
                    let ls = split_lines(rest);
                    assert(ls == seq![chomp_cr(rest.take(e - k))] + split_lines(code@.skip(e + 1)));
                    assert(ls[0] == chomp_cr(rest.take(e - k)));
                    assert(ls.drop_first() =~= split_lines(code@.skip(e + 1)));
                }
                k = e + 1;
            },
            None => {
                proof {
                    lemma_line_end(rest, 0, rest.len() as int);
                    assert(rest =~= code@.subrange(k as int, n as int));
                    assert(split_lines(rest) == seq![rest]);
                    assert(seq![rest].drop_first() =~= Seq::<Seq<u8>>::empty());
                }
                let body = crate::text::copy_range(code, k, n);
                push_comment_line(out, pre, post, body.as_slice());
                k = n;
            },
        }
    }
    proof {
        assert(code@.skip(n as int) =~= Seq::<u8>::empty());
    }
}

/// Appending a file keeps the blocks of the files before it.
proof fn lemma_files_block_snoc(pre: Seq<u8>, post: Seq<u8>, fs: Seq<SourceView>, i: int)
    requires
        0 <= i < fs.len(),
    ensures
        files_block(pre, post, fs.take(i + 1)) == files_block(pre, post, fs.take(i)) + file_block(
            pre,
            post,
            fs[i],
        ),
    decreases i,
{
    let a = fs.take(i + 1);
    let b = fs.take(i);
    if i == 0 {
        assert(a.drop_first() =~= Seq::<SourceView>::empty());
        assert(b =~= Seq::<SourceView>::empty());
        assert(files_block(pre, post, a) =~= file_block(pre, post, fs[0]));
    } else {
        lemma_files_block_snoc(pre, post, fs.drop_first(), i - 1);
        assert(a.drop_first() =~= fs.drop_first().take(i));
        assert(b.drop_first() =~= fs.drop_first().take(i - 1));
        assert(a[0] == fs[0] && b[0] == fs[0]);
        assert(fs.drop_first()[i - 1] == fs[i]);
        assert(files_block(pre, post, a) == file_block(pre, post, fs[0]) + files_block(
            pre,
            post,
            fs.drop_first().take(i),
        ));
        assert(files_block(pre, post, b) == file_block(pre, post, fs[0]) + files_block(
            pre,
            post,
            fs.drop_first().take(i - 1),
        ));
        assert(files_block(pre, post, a) =~= files_block(pre, post, b) + file_block(
            pre,
            post,
            fs[i],
        ));
    }
}

/// Where the block of the file at `i` begins inside the listing.
pub open spec fn block_offset(pre: Seq<u8>, post: Seq<u8>, fs: Seq<SourceView>, i: int) -> int {
    files_block(pre, post, fs.take(i)).len() as int
}

/// The header line naming a file.
pub open spec fn header_line(pre: Seq<u8>, post: Seq<u8>, name: Seq<u8>) -> Seq<u8> {
    comment_line(pre, post, source_file_note() + name)
}

/// The listing of the first `k` files is a prefix of the whole listing.
proof fn lemma_files_block_prefix(pre: Seq<u8>, post: Seq<u8>, fs: Seq<SourceView>, k: int)
    requires
        0 <= k <= fs.len(),
    ensures
        files_block(pre, post, fs.take(k)).len() <= files_block(pre, post, fs).len(),
        files_block(pre, post, fs).take(files_block(pre, post, fs.take(k)).len() as int)
            == files_block(pre, post, fs.take(k)),
    decreases fs.len() - k,
{
    if k == fs.len() {
        assert(fs.take(k) =~= fs);
        assert(files_block(pre, post, fs).take(files_block(pre, post, fs).len() as int)
            =~= files_block(pre, post, fs));
    } else {
        lemma_files_block_snoc(pre, post, fs, k);
        lemma_files_block_prefix(pre, post, fs, k + 1);
        assert(files_block(pre, post, fs).take(files_block(pre, post, fs.take(k)).len() as int)
            =~= files_block(pre, post, fs.take(k)));
    }
}

/// The source listing holds the files in the order given: the block of the
/// file at `i` — a blank annotated line, the header line naming it, then
/// its content line by line — stands as one piece at its own offset, those
/// offsets grow with `i`, and the header line occurs right after the blank
/// line of its block.  So the headers appear in collection order, and each
/// file's lines lie between its header and the next file's block.
pub proof fn lemma_listing_in_order(pre: Seq<u8>, post: Seq<u8>, fs: Seq<SourceView>, i: int)
    requires
        0 <= i < fs.len(),
    ensures
        0 <= block_offset(pre, post, fs, i),
        block_offset(pre, post, fs, i) < block_offset(pre, post, fs, i + 1),
        block_offset(pre, post, fs, i + 1) <= files_block(pre, post, fs).len(),
        files_block(pre, post, fs).subrange(
            block_offset(pre, post, fs, i),
            block_offset(pre, post, fs, i + 1),
        ) == file_block(pre, post, fs[i]),
        is_at(
            files_block(pre, post, fs),
            header_line(pre, post, fs[i].name),
            block_offset(pre, post, fs, i) + comment_line(pre, post, Seq::empty()).len(),
        ),
{
    let whole = files_block(pre, post, fs);
    let block = file_block(pre, post, fs[i]);
    let off = block_offset(pre, post, fs, i);
    let off1 = block_offset(pre, post, fs, i + 1);
    lemma_files_block_snoc(pre, post, fs, i);
    lemma_files_block_prefix(pre, post, fs, i);
    lemma_files_block_prefix(pre, post, fs, i + 1);
    assert(off1 == off + block.len());
    assert(block.len() > 0);
    assert(whole.subrange(off, off1) =~= block) by {
        assert(whole.take(off1) == files_block(pre, post, fs.take(i + 1)));
        assert forall|m: int| 0 <= m < block.len() implies whole[off + m] == block[m] by {
            assert(whole.take(off1)[off + m] == whole[off + m]);
            assert(files_block(pre, post, fs.take(i + 1))[off + m] == block[m]);
        }
    }
    let blank = comment_line(pre, post, Seq::<u8>::empty());
    let header = header_line(pre, post, fs[i].name);
    assert(block.subrange(blank.len() as int, blank.len() as int + header.len()) =~= header);
    assert(whole.subrange(off + blank.len(), off + blank.len() + header.len()) =~= header) by {
        assert forall|m: int| 0 <= m < header.len() implies whole[off + blank.len() + m]
            == header[m] by {
            assert(whole.subrange(off, off1)[blank.len() + m] == whole[off + blank.len() + m]);
            assert(block.subrange(blank.len() as int, blank.len() as int + header.len())[m]
                == header[m]);
        }
    }
}

fn push_inline(out: &mut Vec<u8>, pre: &[u8], post: &[u8], sources: &[SourceFile])
    ensures
        final(out)@ == old(out)@ + inline_block(pre@, post@, views(sources@)),
{
    let note = generated_note_bytes();
    push_comment_line(out, pre, post, note.as_slice());
    if sources.len() > 0 {
        let note = heuristic_note_bytes();
        push_comment_line(out, pre, post, note.as_slice());
    }
    let ghost fs = views(sources@);
    let n = sources.len();
    let ghost mid = out@;
    let mut i: usize = 0;
    proof {
        assert(fs.take(0) =~= Seq::<SourceView>::empty());
    }
    while i < n
        invariant
            0 <= i <= n,
            n == sources@.len(),
            fs == views(sources@),
            out@ == mid + files_block(pre@, post@, fs.take(i as int)),
        decreases n - i,
    {
        let file = &sources[i];
        let empty: Vec<u8> = Vec::new();
        push_comment_line(out, pre, post, empty.as_slice());
        let mut header = source_file_note_bytes();
        push_all(&mut header, file.name().as_slice());
        push_comment_line(out, pre, post, header.as_slice());
        push_code_lines(out, pre, post, file.code().as_slice());
        proof {
            assert(header@ =~= source_file_note() + fs[i as int].name);
            assert(empty@ =~= Seq::<u8>::empty());
            lemma_files_block_snoc(pre@, post@, fs, i as int);
            assert(out@ =~= mid + files_block(pre@, post@, fs.take(i + 1)));
        }
        i += 1;
    }
    proof {
        assert(fs.take(n as int) =~= fs);
        assert(out@ =~= old(out)@ + inline_block(pre@, post@, fs));
    }
}

/// Renders the output for an already-encoded payload: the template's
/// regions around the annotation section and the given text.  This is also
/// the render with compression switched off: the payload bytes are then
/// spliced in untransformed.
pub fn render_with(lang: &Language, sources: &[SourceFile], enc: &[u8]) -> (out: Vec<u8>)
    ensures
        out@ == render_text(lang@, views(sources@), enc@),
{
    let mut out: Vec<u8> = Vec::new();
    push_all(&mut out, lang.preamble().as_slice());
    push_inline(&mut out, lang.pre().as_slice(), lang.post().as_slice(), sources);
    push_all(&mut out, lang.middle().as_slice());
    push_all(&mut out, enc);
    push_all(&mut out, lang.postamble().as_slice());
    proof {
        assert(out@ =~= render_text(lang@, views(sources@), enc@));
    }
    out
}

/// Renders the output for a raw payload, on every input: the payload is
/// gzip-compressed at best level and base64-encoded, and the text is
/// assembled around that encoding.  Decoding the embedded text and
/// decompressing it yields the payload again; the embedded text is base64
/// alphabet ASCII, four bytes for every three of the compressed stream, so
/// the output is valid UTF-8 wherever the template was.
pub fn render(lang: &Language, sources: &[SourceFile], payload: &[u8]) -> (out: Vec<u8>)
    ensures
        out@ == render_text(lang@, views(sources@), b64_of(gzip_best_of(payload@))),
        b64_decode_of(b64_of(gzip_best_of(payload@))) == Some(gzip_best_of(payload@)),
        gunzip_of(gzip_best_of(payload@)) == Some(payload@),
        forall|i: int|
            0 <= i < b64_of(gzip_best_of(payload@)).len() ==> is_b64_byte(
                #[trigger] b64_of(gzip_best_of(payload@))[i],
            ),
        b64_of(gzip_best_of(payload@)).len() % 4 == 0,
{
    let enc = compress_encode(payload);
    render_with(lang, sources, enc.as_slice())
}

} // verus!
