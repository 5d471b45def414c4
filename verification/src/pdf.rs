use crate::cp1252::{escape_chars_into, escaped_chars};
use crate::decimal::{decimal_bytes, lemma_decimal_width, pow10, push_decimal, push_zero_padded, zero_padded};
use crate::layout::{
    all_whitespace, law_blank_text_is_empty_page, law_layout_depends_on_words, layout_lines,
    layout_pages, paginate, paragraph_words_of, text_lines,
};
use crate::textutil::{append_bytes, chars_of};
use vstd::prelude::*;
use vstd::utf8::encode_utf8;

verus! {

/// The bytes of a piece of ASCII text.
pub open spec fn bytes_of(s: &str) -> Seq<u8> {
    encode_utf8(s@)
}

/// An indirect object: "`id` 0 obj", the content, "endobj".
pub open spec fn object_bytes(id: nat, content: Seq<u8>) -> Seq<u8> {
    decimal_bytes(id) + bytes_of(" 0 obj\n") + content + bytes_of("\nendobj\n")
}

/// The offset table grown with zero entries until it has a slot for `id`.
pub open spec fn with_slot(offsets: Seq<usize>, id: nat) -> Seq<usize> {
    if id < offsets.len() {
        offsets
    } else {
        offsets + Seq::new((id + 1 - offsets.len()) as nat, |i: int| 0usize)
    }
}

/// A writer state (bytes so far, object offsets) after writing object `id`:
/// its offset is where its bytes begin.
pub open spec fn written(w: (Seq<u8>, Seq<usize>), id: nat, content: Seq<u8>) -> (Seq<u8>, Seq<usize>) {
    (w.0 + object_bytes(id, content), with_slot(w.1, id).update(id as int, w.0.len() as usize))
}

/// The cross-reference entries of the given offsets, ten digits each.
pub open spec fn xref_entries(offsets: Seq<usize>) -> Seq<u8>
    decreases offsets.len(),
{
    if offsets.len() == 0 {
        seq![]
    } else {
        xref_entries(offsets.drop_last()) + zero_padded(offsets.last() as nat, 10) + bytes_of(
            " 00000 n \n",
        )
    }
}

/// The end of the file: cross-reference table, trailer, start of the table, end marker.
pub open spec fn tail_bytes(buf_len: nat, offsets: Seq<usize>) -> Seq<u8> {
    bytes_of("xref\n") + bytes_of("0 ") + decimal_bytes(offsets.len()) + bytes_of("\n") + bytes_of(
        "0000000000 65535 f \n",
    ) + xref_entries(offsets.drop_first()) + bytes_of("trailer\n") + bytes_of("<< /Size ")
        + decimal_bytes(offsets.len()) + bytes_of(" /Root 1 0 R >>\n") + bytes_of("startxref\n")
        + decimal_bytes(buf_len) + bytes_of("\n") + bytes_of("%%EOF\n")
}

/// A complete file from a writer state.
pub open spec fn finished(w: (Seq<u8>, Seq<usize>)) -> Seq<u8> {
    w.0 + tail_bytes(w.0.len(), w.1)
}

/// The references to the page objects 3, 5, 7, ... separated by spaces.
pub open spec fn kids_bytes(n: nat) -> Seq<u8>
    decreases n,
{
    if n == 0 {
        seq![]
    } else if n == 1 {
        decimal_bytes(3) + bytes_of(" 0 R")
    } else {
        kids_bytes((n - 1) as nat) + seq![32u8] + decimal_bytes((3 + 2 * (n - 1)) as nat)
            + bytes_of(" 0 R")
    }
}

/// The page tree object.
pub open spec fn pages_object(n: nat) -> Seq<u8> {
    bytes_of("<< /Type /Pages /Kids [") + kids_bytes(n) + bytes_of("] /Count ") + decimal_bytes(n)
        + bytes_of(" >>")
}

/// The object of page `i`.
pub open spec fn page_object(i: nat, font: nat) -> Seq<u8> {
    bytes_of("<< /Type /Page /Parent 2 0 R /MediaBox [0 0 595 842] /Contents ") + decimal_bytes(
        (4 + 2 * i) as nat,
    ) + bytes_of(" 0 R /Resources << /Font << /F1 ") + decimal_bytes(font) + bytes_of(
        " 0 R >> >> >>",
    )
}

/// One text operation per line.
pub open spec fn line_ops(lines: Seq<Seq<char>>) -> Seq<u8>
    decreases lines.len(),
{
    if lines.len() == 0 {
        seq![]
    } else {
        line_ops(lines.drop_last()) + bytes_of("(") + escaped_chars(lines.last()) + bytes_of(
            ") Tj T*\n",
        )
    }
}

/// The content stream of a page: 10 pt font, 12.5 pt leading, starting at (50, 780).
pub open spec fn content_stream(lines: Seq<Seq<char>>) -> Seq<u8> {
    bytes_of("BT\n/F1 10 Tf\n12.5 TL\n50 780 Td\n") + line_ops(lines) + bytes_of("ET\n")
}

/// The stream object holding a page's content.
pub open spec fn content_object(lines: Seq<Seq<char>>) -> Seq<u8> {
    bytes_of("<< /Length ") + decimal_bytes(content_stream(lines).len()) + bytes_of(
        " >>\nstream\n",
    ) + content_stream(lines) + bytes_of("\nendstream")
}

/// The writer state after the page and content objects of the first `k` pages.
pub open spec fn pages_written(w: (Seq<u8>, Seq<usize>), pages: Seq<Seq<Seq<char>>>, k: nat, font: nat) -> (Seq<u8>, Seq<usize>)
    decreases k,
{
    if k == 0 {
        w
    } else {
        let prev = pages_written(w, pages, (k - 1) as nat, font);
        written(
            written(prev, (3 + 2 * (k - 1)) as nat, page_object((k - 1) as nat, font)),
            (4 + 2 * (k - 1)) as nat,
            content_object(pages[k - 1]),
        )
    }
}

/// The catalog object.
pub open spec fn catalog_object() -> Seq<u8> {
    bytes_of("<< /Type /Catalog /Pages 2 0 R >>")
}

/// The font object: Helvetica with the WinAnsi encoding.
pub open spec fn font_object() -> Seq<u8> {
    bytes_of("<< /Type /Font /Subtype /Type1 /BaseFont /Helvetica /Encoding /WinAnsiEncoding >>")
}

/// The writer state once every object of the document is written.
pub open spec fn document_objects(pages: Seq<Seq<Seq<char>>>) -> (Seq<u8>, Seq<usize>) {
    let n = pages.len();
    let font = (3 + 2 * n) as nat;
    let w0 = (bytes_of("%PDF-1.4\n"), Seq::<usize>::empty());
    let w1 = written(w0, 1, catalog_object());
    let w2 = written(w1, 2, pages_object(n));
    let w3 = pages_written(w2, pages, n, font);
    written(w3, font, font_object())
}

/// The PDF file showing the given pages.
pub open spec fn pdf_document(pages: Seq<Seq<Seq<char>>>) -> Seq<u8> {
    finished(document_objects(pages))
}

/// An in-memory PDF file under construction: its bytes and the offset of each object.
pub struct PdfWriter {
    buf: Vec<u8>,
    offsets: Vec<usize>,
}

impl View for PdfWriter {
    type V = (Seq<u8>, Seq<usize>);

    closed spec fn view(&self) -> (Seq<u8>, Seq<usize>) {
        (self.buf@, self.offsets@)
    }
}

impl PdfWriter {
    /// Starts a file with the PDF 1.4 header and no objects.
    pub fn new() -> (w: Self)
        ensures
            w@ == (bytes_of("%PDF-1.4\n"), Seq::<usize>::empty()),
    {
        let mut writer = PdfWriter { buf: Vec::new(), offsets: Vec::new() };
        append_bytes(&mut writer.buf, "%PDF-1.4\n".as_bytes());
        assert(writer.buf@ =~= bytes_of("%PDF-1.4\n"));
        writer
    }

    /// Appends object `id` and records its offset.
    pub fn write_object(&mut self, id: usize, content: &[u8])
        ensures
            final(self)@ == written(old(self)@, id as nat, content@),
    {
        let ghost start = self.offsets@;
        let ghost start_buf = self.buf@;
        while self.offsets.len() <= id
            invariant
                start.len() <= self.offsets@.len(),
                self.offsets@.len() <= id + 1 || self.offsets@.len() == start.len(),
                self.buf@ == start_buf,
                self.offsets@ =~= start + Seq::new(
                    (self.offsets@.len() - start.len()) as nat,
                    |i: int| 0usize,
                ),
            decreases id + 1 - self.offsets.len(),
        {
            self.offsets.push(0);
        }
        assert(self.offsets@ =~= with_slot(start, id as nat));
        let pos = self.buf.len();
        self.offsets.set(id, pos);
        push_decimal(&mut self.buf, id as u64);
        append_bytes(&mut self.buf, " 0 obj\n".as_bytes());
        append_bytes(&mut self.buf, content);
        append_bytes(&mut self.buf, "\nendobj\n".as_bytes());
        assert(self.buf@ =~= start_buf + object_bytes(id as nat, content@));
    }

    /// Appends the cross-reference table and trailer and returns the file.
    pub fn finish(self) -> (bytes: Vec<u8>)
        requires
            self@.1.len() >= 1,
        ensures
            bytes@ == finished(self@),
    {
        let ghost w = self@;
        let mut buf = self.buf;
        let offsets = self.offsets;
        let xref_start = buf.len();
        append_bytes(&mut buf, "xref\n".as_bytes());
        append_bytes(&mut buf, "0 ".as_bytes());
        push_decimal(&mut buf, offsets.len() as u64);
        append_bytes(&mut buf, "\n".as_bytes());
        append_bytes(&mut buf, "0000000000 65535 f \n".as_bytes());
        let ghost before_entries = buf@;
        let mut i: usize = 1;
        proof {
            assert(offsets@.drop_first().take(0) =~= Seq::<usize>::empty());
        }
        while i < offsets.len()
            invariant
                1 <= i <= offsets@.len(),
                buf@ == before_entries + xref_entries(offsets@.drop_first().take(i - 1)),
            decreases offsets.len() - i,
        {
            proof {
                let t = offsets@.drop_first().take(i as int);
                assert(t.drop_last() =~= offsets@.drop_first().take(i - 1));
                assert(t.last() == offsets@[i as int]);
            }
            push_zero_padded(&mut buf, offsets[i] as u64, 10);
            append_bytes(&mut buf, " 00000 n \n".as_bytes());
            i = i + 1;
        }
        assert(offsets@.drop_first().take(i - 1) =~= offsets@.drop_first());
        append_bytes(&mut buf, "trailer\n".as_bytes());
        append_bytes(&mut buf, "<< /Size ".as_bytes());
        push_decimal(&mut buf, offsets.len() as u64);
        append_bytes(&mut buf, " /Root 1 0 R >>\n".as_bytes());
        append_bytes(&mut buf, "startxref\n".as_bytes());
        push_decimal(&mut buf, xref_start as u64);
        append_bytes(&mut buf, "\n".as_bytes());
        append_bytes(&mut buf, "%%EOF\n".as_bytes());
        assert(buf@ =~= finished(w));
        buf
    }
}

/// Appends the page references "3 0 R 5 0 R ..." for `n` pages.
fn push_kids(out: &mut Vec<u8>, n: usize)
    requires
        n <= usize::MAX / 4,
    ensures
        final(out)@ == old(out)@ + kids_bytes(n as nat),
{
    let ghost start = out@;
    let mut i: usize = 0;
    while i < n
        invariant
            i <= n <= usize::MAX / 4,
            out@ == start + kids_bytes(i as nat),
        decreases n - i,
    {
        if i > 0 {
            out.push(32u8);
        }
        push_decimal(out, (3 + 2 * i) as u64);
        append_bytes(out, " 0 R".as_bytes());
        proof {
            if i == 0 {
                assert(kids_bytes(0) =~= Seq::<u8>::empty());
            }
        }
        i = i + 1;
    }
}

/// Builds the content stream object of one page.
fn content_object_of(page: &Vec<Vec<char>>) -> (obj: Vec<u8>)
    ensures
        obj@ == content_object(page.deep_view()),
{
    let ghost pv = page.deep_view();
    let mut stream: Vec<u8> = Vec::new();
    append_bytes(&mut stream, "BT\n/F1 10 Tf\n12.5 TL\n50 780 Td\n".as_bytes());
    let ghost head = stream@;
    let mut j: usize = 0;
    proof {
        assert(pv.take(0) =~= Seq::<Seq<char>>::empty());
    }
    while j < page.len()
        invariant
            j <= page@.len(),
            pv == page.deep_view(),
            stream@ == head + line_ops(pv.take(j as int)),
        decreases page.len() - j,
    {
        proof {
            let t = pv.take(j + 1);
            assert(t.drop_last() =~= pv.take(j as int));
            assert(page[j as int].deep_view() =~= page[j as int]@);
            assert(t.last() == page[j as int]@);
        }
        append_bytes(&mut stream, "(".as_bytes());
        escape_chars_into(&page[j], &mut stream);
        append_bytes(&mut stream, ") Tj T*\n".as_bytes());
        j = j + 1;
    }
    assert(pv.take(j as int) =~= pv);
    append_bytes(&mut stream, "ET\n".as_bytes());
    assert(stream@ =~= content_stream(pv));
    let mut obj: Vec<u8> = Vec::new();
    append_bytes(&mut obj, "<< /Length ".as_bytes());
    push_decimal(&mut obj, stream.len() as u64);
    append_bytes(&mut obj, " >>\nstream\n".as_bytes());
    append_bytes(&mut obj, stream.as_slice());
    append_bytes(&mut obj, "\nendstream".as_bytes());
    assert(obj@ =~= content_object(pv));
    obj
}

/// Generates a PDF document from plain text.
pub fn generate_pdf(text: &str) -> (pdf_bytes: Vec<u8>)
    ensures
        pdf_bytes@ == pdf_document(layout_pages(text@)),
{
    let cs = chars_of(text);
    let lines = layout_lines(&cs);
    let pages = paginate(&lines);
    let ghost pv = pages.deep_view();
    let num_pages = pages.len();
    assert(num_pages <= usize::MAX / 4) by (nonlinear_arith)
        requires
            58 * (num_pages - 1) <= lines.len(),
            lines.len() <= cs.len() + 1,
            cs.len() <= usize::MAX,
            num_pages >= 1,
    ;
    let mut pdf = PdfWriter::new();
    pdf.write_object(1, "<< /Type /Catalog /Pages 2 0 R >>".as_bytes());
    let mut pages_content: Vec<u8> = Vec::new();
    append_bytes(&mut pages_content, "<< /Type /Pages /Kids [".as_bytes());
    push_kids(&mut pages_content, num_pages);
    append_bytes(&mut pages_content, "] /Count ".as_bytes());
    push_decimal(&mut pages_content, num_pages as u64);
    append_bytes(&mut pages_content, " >>".as_bytes());
    assert(pages_content@ =~= pages_object(num_pages as nat));
    pdf.write_object(2, pages_content.as_slice());
    let ghost w2 = pdf@;
    let font_obj_id = 3 + 2 * num_pages;
    let mut i: usize = 0;
    while i < num_pages
        invariant
            i <= num_pages == pages.len() <= usize::MAX / 4,
            font_obj_id == 3 + 2 * num_pages,
            pv == pages.deep_view(),
            pdf@ == pages_written(w2, pv, i as nat, font_obj_id as nat),
        decreases num_pages - i,
    {
        let page_obj_id = 3 + 2 * i;
        let content_obj_id = 4 + 2 * i;
        let mut page_dict: Vec<u8> = Vec::new();
        append_bytes(
            &mut page_dict,
            "<< /Type /Page /Parent 2 0 R /MediaBox [0 0 595 842] /Contents ".as_bytes(),
        );
        push_decimal(&mut page_dict, content_obj_id as u64);
        append_bytes(&mut page_dict, " 0 R /Resources << /Font << /F1 ".as_bytes());
        push_decimal(&mut page_dict, font_obj_id as u64);
        append_bytes(&mut page_dict, " 0 R >> >> >>".as_bytes());
        assert(page_dict@ =~= page_object(i as nat, font_obj_id as nat));
        pdf.write_object(page_obj_id, page_dict.as_slice());
        let content_obj = content_object_of(&pages[i]);
        pdf.write_object(content_obj_id, content_obj.as_slice());
        proof {
            assert(pv[i as int] == pages[i as int].deep_view());
        }
        i = i + 1;
    }
    pdf.write_object(
        font_obj_id,
        "<< /Type /Font /Subtype /Type1 /BaseFont /Helvetica /Encoding /WinAnsiEncoding >>".as_bytes(),
    );
    assert(pdf@ == document_objects(pv));
    assert(pdf@.1.len() >= 1);
    pdf.finish()
}


// ---------------------------------------------------------------------------
// Laws
// ---------------------------------------------------------------------------

/// How one line is shown on a page: the escaped string, the show operator
/// `Tj`, then `T*`, which moves to the start of the next line (12.5 pt lower).
pub open spec fn shown_line(l: Seq<char>) -> Seq<u8> {
    bytes_of("(") + escaped_chars(l) + bytes_of(") Tj T*\n")
}

proof fn lemma_line_ops_flatten(lines: Seq<Seq<char>>)
    ensures
        line_ops(lines) == lines.map_values(|l: Seq<char>| shown_line(l)).flatten(),
    decreases lines.len(),
{
    let f = |l: Seq<char>| shown_line(l);
    if lines.len() == 0 {
        assert(lines.map_values(f) =~= Seq::<Seq<u8>>::empty());
    } else {
        let init = lines.drop_last();
        lemma_line_ops_flatten(init);
        assert(lines.map_values(f) =~= init.map_values(f).push(shown_line(lines.last())));
        init.map_values(f).lemma_flatten_push(shown_line(lines.last()));
        assert(line_ops(lines) =~= line_ops(init) + shown_line(lines.last()));
    }
}

/// A page's content stream selects the font and leading, starts at (50, 780),
/// then shows each line in order, every one followed by `T*` so that line `j`
/// stands 12.5 pt × `j` below the first, and ends the text block.
pub proof fn law_content_stream_shows_each_line(lines: Seq<Seq<char>>)
    ensures
        content_stream(lines) == bytes_of("BT\n/F1 10 Tf\n12.5 TL\n50 780 Td\n") + lines.map_values(
            |l: Seq<char>| bytes_of("(") + escaped_chars(l) + bytes_of(") Tj T*\n"),
        ).flatten() + bytes_of("ET\n"),
{
    lemma_line_ops_flatten(lines);
    assert(lines.map_values(|l: Seq<char>| shown_line(l)) =~= lines.map_values(
        |l: Seq<char>| bytes_of("(") + escaped_chars(l) + bytes_of(") Tj T*\n"),
    ));
}

proof fn lemma_pages_written_prefix_len(w: (Seq<u8>, Seq<usize>), pages: Seq<Seq<Seq<char>>>, k: nat, font: nat)
    ensures
        w.0.len() <= pages_written(w, pages, k, font).0.len(),
    decreases k,
{
    if k > 0 {
        lemma_pages_written_prefix_len(w, pages, (k - 1) as nat, font);
    }
}

/// The content of object `k` of the document showing `pages` (n pages): 1 the
/// catalog, 2 the page tree, 3 + 2i page i, 4 + 2i its content stream, and
/// 3 + 2n the font.
pub open spec fn document_object(pages: Seq<Seq<Seq<char>>>, k: nat) -> Seq<u8> {
    let font = (3 + 2 * pages.len()) as nat;
    if k == 1 {
        catalog_object()
    } else if k == 2 {
        pages_object(pages.len())
    } else if k == font {
        font_object()
    } else if k % 2 == 1 {
        page_object(((k - 3) / 2) as nat, font)
    } else {
        content_object(pages[(k - 4) / 2])
    }
}

/// Every recorded offset (past the reserved slot 0) is where the whole of its
/// object, "k 0 obj", the content and "endobj", stands in the file.
#[verifier::opaque]
pub open spec fn offsets_hold_objects(w: (Seq<u8>, Seq<usize>), pages: Seq<Seq<Seq<char>>>) -> bool {
    forall|k: int|
        1 <= k < w.1.len() ==> #[trigger] w.1[k] + object_bytes(k as nat, document_object(pages, k as nat)).len()
            <= w.0.len() && w.0.subrange(
            w.1[k] as int,
            w.1[k] + object_bytes(k as nat, document_object(pages, k as nat)).len(),
        ) == object_bytes(k as nat, document_object(pages, k as nat))
}

proof fn lemma_written_holds(w: (Seq<u8>, Seq<usize>), pages: Seq<Seq<Seq<char>>>, id: nat)
    requires
        offsets_hold_objects(w, pages),
        id == w.1.len() || (w.1.len() == 0 && id == 1),
        w.0.len() <= usize::MAX,
    ensures
        offsets_hold_objects(written(w, id, document_object(pages, id)), pages),
        written(w, id, document_object(pages, id)).1.len() == id + 1,
        w.0.is_prefix_of(written(w, id, document_object(pages, id)).0),
{
    reveal(offsets_hold_objects);
    let content = document_object(pages, id);
    let w2 = written(w, id, content);
    let obj = object_bytes(id, content);
    assert(w2.0 == w.0 + obj);
    assert forall|k: int| 1 <= k < w2.1.len() implies #[trigger] w2.1[k] + object_bytes(
        k as nat,
        document_object(pages, k as nat),
    ).len() <= w2.0.len() && w2.0.subrange(
        w2.1[k] as int,
        w2.1[k] + object_bytes(k as nat, document_object(pages, k as nat)).len(),
    ) == object_bytes(k as nat, document_object(pages, k as nat)) by {
        let o = object_bytes(k as nat, document_object(pages, k as nat));
        if k == id {
            assert(w2.1[k] == w.0.len());
            assert(w2.0.subrange(w.0.len() as int, (w.0.len() + o.len()) as int) =~= obj);
        } else {
            assert(w2.1[k] == w.1[k]);
            let off = w.1[k] as int;
            assert(w2.0.subrange(off, off + o.len()) =~= w.0.subrange(off, off + o.len()));
        }
    }
    assert(w2.0.subrange(0, w.0.len() as int) =~= w.0);
}

proof fn lemma_pages_written_holds(w: (Seq<u8>, Seq<usize>), pages: Seq<Seq<Seq<char>>>, k: nat)
    requires
        offsets_hold_objects(w, pages),
        w.1.len() == 3,
        k <= pages.len(),
        pages_written(w, pages, k, (3 + 2 * pages.len()) as nat).0.len() <= usize::MAX,
    ensures
        offsets_hold_objects(pages_written(w, pages, k, (3 + 2 * pages.len()) as nat), pages),
        pages_written(w, pages, k, (3 + 2 * pages.len()) as nat).1.len() == 3 + 2 * k,
    decreases k,
{
    let font = (3 + 2 * pages.len()) as nat;
    if k > 0 {
        let i = (k - 1) as nat;
        let prev = pages_written(w, pages, i, font);
        let mid = written(prev, 3 + 2 * i, page_object(i, font));
        let last = written(mid, 4 + 2 * i, content_object(pages[i as int]));
        assert(last == pages_written(w, pages, k, font));
        assert(document_object(pages, 3 + 2 * i) == page_object(i, font));
        assert(document_object(pages, 4 + 2 * i) == content_object(pages[i as int]));
        lemma_pages_written_prefix_len(w, pages, i, font);
        assert(prev.0.len() <= mid.0.len() <= last.0.len());
        lemma_pages_written_holds(w, pages, i);
        lemma_written_holds(prev, pages, 3 + 2 * i);
        lemma_written_holds(mid, pages, 4 + 2 * i);
    }
}

/// In a PDF file that fits in memory, the cross-reference table lists one
/// offset per object 1 to 2n + 3 (n pages), and at each offset stands the whole
/// object: the catalog, the page tree, each page and its content stream, the font.
pub proof fn law_xref_offsets_hold_objects(pages: Seq<Seq<Seq<char>>>)
    requires
        pdf_document(pages).len() <= usize::MAX,
    ensures
        document_objects(pages).1.len() == 2 * pages.len() + 4,
        offsets_hold_objects(document_objects(pages), pages),
        document_objects(pages).0.is_prefix_of(pdf_document(pages)),
{
    let n = pages.len();
    let font = (3 + 2 * n) as nat;
    let w0 = (bytes_of("%PDF-1.4\n"), Seq::<usize>::empty());
    let w1 = written(w0, 1, catalog_object());
    let w2 = written(w1, 2, pages_object(n));
    let w3 = pages_written(w2, pages, n, font);
    let w4 = written(w3, font, font_object());
    assert(w4 == document_objects(pages));
    assert(offsets_hold_objects(w0, pages)) by {
        reveal(offsets_hold_objects);
    }
    assert(document_object(pages, 1) == catalog_object());
    assert(document_object(pages, 2) == pages_object(n));
    assert(document_object(pages, font) == font_object());
    let doc = pdf_document(pages);
    assert(doc == w4.0 + tail_bytes(w4.0.len(), w4.1));
    assert(w4.0 == w3.0 + object_bytes(font, font_object()));
    assert(w2.0.len() <= w3.0.len()) by {
        lemma_pages_written_prefix_len(w2, pages, n, font);
    }
    lemma_written_holds(w0, pages, 1);
    lemma_written_holds(w1, pages, 2);
    lemma_pages_written_holds(w2, pages, n);
    lemma_written_holds(w3, pages, font);
    assert(doc.subrange(0, w4.0.len() as int) =~= w4.0);
}

/// Every file opens with the PDF 1.4 header and ends with the end-of-file marker;
/// right after the objects comes the cross-reference table, whose position the
/// trailer gives after "startxref".
#[verifier::spinoff_prover]
#[verifier::rlimit(40)]
pub proof fn law_pdf_framing(pages: Seq<Seq<Seq<char>>>)
    ensures
        bytes_of("%PDF-1.4\n").is_prefix_of(pdf_document(pages)),
        bytes_of("%%EOF\n").is_suffix_of(pdf_document(pages)),
        bytes_of("xref\n").is_prefix_of(
            pdf_document(pages).subrange(
                document_objects(pages).0.len() as int,
                pdf_document(pages).len() as int,
            ),
        ),
        (bytes_of("startxref\n") + decimal_bytes(document_objects(pages).0.len()) + bytes_of("\n")
            + bytes_of("%%EOF\n")).is_suffix_of(pdf_document(pages)),
{
    let n = pages.len();
    let font = (3 + 2 * n) as nat;
    let w0 = (bytes_of("%PDF-1.4\n"), Seq::<usize>::empty());
    let w1 = written(w0, 1, catalog_object());
    let w2 = written(w1, 2, pages_object(n));
    let w3 = pages_written(w2, pages, n, font);
    let w4 = written(w3, font, font_object());
    let h = bytes_of("%PDF-1.4\n");
    let doc = pdf_document(pages);
    lemma_pages_written_prefix(w2, pages, n, font);
    assert(w2.0 == h + object_bytes(1, catalog_object()) + object_bytes(2, pages_object(n)));
    assert(w4.0 == w3.0 + object_bytes(font, font_object()));
    assert(doc.subrange(0, h.len() as int) =~= h) by {
        assert(w3.0.subrange(0, w2.0.len() as int) =~= w2.0);
        assert(doc.subrange(0, h.len() as int) =~= w2.0.subrange(0, h.len() as int));
    }
    let tail = tail_bytes(w4.0.len(), w4.1);
    assert(doc == w4.0 + tail);
    assert(doc.subrange(w4.0.len() as int, doc.len() as int) =~= tail);
    assert(tail.subrange(0, bytes_of("xref\n").len() as int) =~= bytes_of("xref\n"));
    let end = bytes_of("startxref\n") + decimal_bytes(w4.0.len()) + bytes_of("\n") + bytes_of("%%EOF\n");
    assert(doc.subrange(doc.len() - end.len(), doc.len() as int) =~= end);
    let e = bytes_of("%%EOF\n");
    assert(doc.subrange(doc.len() - e.len(), doc.len() as int) =~= e);
}

proof fn lemma_pages_written_prefix(w: (Seq<u8>, Seq<usize>), pages: Seq<Seq<Seq<char>>>, k: nat, font: nat)
    ensures
        w.0.is_prefix_of(pages_written(w, pages, k, font).0),
    decreases k,
{
    if k > 0 {
        lemma_pages_written_prefix(w, pages, (k - 1) as nat, font);
        let prev = pages_written(w, pages, (k - 1) as nat, font);
        let last = pages_written(w, pages, k, font);
        assert(last.0.subrange(0, w.0.len() as int) =~= prev.0.subrange(0, w.0.len() as int));
    } else {
        assert(w.0.subrange(0, w.0.len() as int) =~= w.0);
    }
}

/// Cross-reference entries have a fixed width: ten digits and the same suffix,
/// as long as every offset has at most ten digits.
pub proof fn law_xref_entries_fixed_width(offsets: Seq<usize>)
    requires
        forall|i: int| 0 <= i < offsets.len() ==> (#[trigger] offsets[i] as nat) < pow10(10),
    ensures
        xref_entries(offsets).len() == offsets.len() * (10 + bytes_of(" 00000 n \n").len()),
    decreases offsets.len(),
{
    if offsets.len() > 0 {
        let init = offsets.drop_last();
        assert forall|i: int| 0 <= i < init.len() implies (#[trigger] init[i] as nat) < pow10(10) by {
            assert(init[i] == offsets[i]);
        }
        law_xref_entries_fixed_width(init);
        assert(offsets.last() as nat == offsets[offsets.len() - 1] as nat);
        lemma_decimal_width(offsets.last() as nat, 10);
        let c = 10 + bytes_of(" 00000 n \n").len();
        let m = offsets.len();
        assert((m - 1) * c + c == m * c) by (nonlinear_arith)
            requires
                m >= 1,
        ;
    }
}

/// The PDF file of a text depends only on the words of each paragraph, and a
/// text of nothing but whitespace gives the same file as the empty text.
pub proof fn law_pdf_depends_on_words(t1: Seq<char>, t2: Seq<char>)
    ensures
        paragraph_words_of(t1) == paragraph_words_of(t2) ==> pdf_document(layout_pages(t1))
            == pdf_document(layout_pages(t2)),
        all_whitespace(t1) ==> pdf_document(layout_pages(t1)) == pdf_document(
            layout_pages(Seq::<char>::empty()),
        ),
{
    if paragraph_words_of(t1) == paragraph_words_of(t2) {
        law_layout_depends_on_words(t1, t2);
    }
    if all_whitespace(t1) {
        law_blank_text_is_empty_page(t1);
    }
}

} // verus!
