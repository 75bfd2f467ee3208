//! PDF and DOCX attachments as Markdown.
use crate::lines::{
    join, joined, lines, lines_of, trim, trim_end, trimmed, trimmed_end, unix_newlines,
    with_unix_newlines,
};
use crate::numbers::{decimal, number_of, parse_size, to_decimal};
use crate::text::{
    chars_of, has_prefix, is_white_space, lower_char, lower_of_char, opt_text, same, slice_text,
    starts_with, texts,
};
use quick_xml::events::attributes::Attributes;
use quick_xml::events::{BytesStart, Event};
use vstd::prelude::*;

verus! {

// ---------------------------------------------------------------------------
// Pages
// ---------------------------------------------------------------------------

/// Each line without the white space at its end.
pub open spec fn right_trimmed(pieces: Seq<Seq<char>>) -> Seq<Seq<char>> {
    pieces.map_values(|piece: Seq<char>| trim_end(piece))
}

/// Extracted text with uniform line ends, and without white space at the end of
/// its lines and at both of its own ends.
pub open spec fn normalized(text: Seq<char>) -> Seq<char> {
    trim(join(right_trimmed(lines(unix_newlines(text))), "\n"@))
}

/// Extracted text with uniform line ends, and without white space at the end of
/// its lines and at both of its own ends.
pub fn normalize_extracted_text(text: &str) -> (out: String)
    ensures
        out@ == normalized(text@),
{
    let unix = with_unix_newlines(text);
    let all = lines_of(unix.as_str());
    let mut kept: Vec<String> = Vec::new();
    let mut i: usize = 0;
    while i < all.len()
        invariant
            i <= all.len(),
            texts(kept@) == right_trimmed(texts(all@).take(i as int)),
        decreases all.len() - i,
    {
        let line = trimmed_end(all[i].as_str());
        let ghost before = texts(kept@);
        kept.push(line);
        assert(texts(kept@) =~= before.push(trim_end(all@[i as int]@)));
        i = i + 1;
        assert(texts(kept@) =~= right_trimmed(texts(all@).take(i as int)));
    }
    assert(texts(all@).take(i as int) =~= texts(all@));
    let whole = joined(&kept, "\n");
    trimmed(whole.as_str())
}

/// The section of page number `n`.
pub open spec fn page_section(n: nat, text: Seq<char>) -> Seq<char> {
    "# Page "@ + decimal(n) + "\n\n"@ + normalized(text)
}

/// One section for each page that holds text. Pages are numbered from one, those
/// without text too.
pub open spec fn page_sections(pages: Seq<Seq<char>>) -> Seq<Seq<char>>
    decreases pages.len(),
{
    if pages.len() == 0 {
        Seq::empty()
    } else {
        let before = page_sections(pages.drop_last());
        if normalized(pages.last()).len() == 0 {
            before
        } else {
            before.push(page_section(pages.len(), pages.last()))
        }
    }
}

/// What the pages of a document come to: its sections, or the reason why there is
/// none.
pub open spec fn pages_markdown(pages: Seq<Seq<char>>) -> Result<Seq<char>, Seq<char>> {
    if page_sections(pages).len() == 0 {
        Err("PDF has no extractable text layer; OCR is required for scanned pages"@)
    } else {
        Ok(join(page_sections(pages), "\n\n"@))
    }
}

/// A result with strings as one with texts.
pub open spec fn result_text(r: Result<String, String>) -> Result<Seq<char>, Seq<char>> {
    match r {
        Ok(s) => Ok(s@),
        Err(s) => Err(s@),
    }
}

/// The pages of a document as Markdown, with one top-level section per page that
/// holds text.
pub fn markdown_from_pages(pages: &Vec<String>) -> (r: Result<String, String>)
    ensures
        result_text(r) == pages_markdown(texts(pages@)),
{
    let mut sections: Vec<String> = Vec::new();
    let mut i: usize = 0;
    let ghost all = texts(pages@);
    while i < pages.len()
        invariant
            i <= pages.len(),
            all == texts(pages@),
            texts(sections@) == page_sections(all.take(i as int)),
        decreases pages.len() - i,
    {
        let text = normalize_extracted_text(pages[i].as_str());
        assert(all.take(i + 1).drop_last() =~= all.take(i as int));
        if !text.as_str().is_empty() {
            let ghost before = texts(sections@);
            let mut section: String = "# Page ".to_owned();
            section.append(to_decimal(i as u64 + 1).as_str());
            section.append("\n\n");
            section.append(text.as_str());
            assert(section@ =~= page_section((i + 1) as nat, pages@[i as int]@));
            sections.push(section);
            assert(texts(sections@) =~= before.push(section@));
        }
        i = i + 1;
    }
    assert(all.take(i as int) =~= all);
    if sections.len() == 0 {
        return Err(
            "PDF has no extractable text layer; OCR is required for scanned pages".to_owned(),
        );
    }
    Ok(joined(&sections, "\n\n"))
}

/// What a PDF file comes to, given what its pages came to: the Markdown of the pages,
/// or the reason why there is none.
pub open spec fn pdf_answer(pages: Result<Seq<Seq<char>>, Seq<char>>) -> Result<
    Seq<char>,
    Seq<char>,
> {
    match pages {
        Ok(pages) => pages_markdown(pages),
        Err(message) => Err("PDF text extraction failed: "@ + message),
    }
}

/// The text layer of a PDF file as Markdown, with one top-level section per page that
/// holds text, given what the extraction of its pages came to: the texts of the pages in
/// order, or the message of the error that stopped it.
pub fn markdown_from_pdf_pages(pages: Result<Vec<String>, String>) -> (r: Result<String, String>)
    ensures
        result_text(r) == pdf_answer(
            match pages {
                Ok(pages) => Ok(texts(pages@)),
                Err(message) => Err(message@),
            },
        ),
{
    match pages {
        Ok(pages) => markdown_from_pages(&pages),
        Err(message) => {
            let mut text: String = "PDF text extraction failed: ".to_owned();
            text.append(message.as_str());
            Err(text)
        },
    }
}

// ---------------------------------------------------------------------------
// XML
// ---------------------------------------------------------------------------

/// The opening of an element: its name without a prefix, and its attributes as written.
pub struct XmlTag {
    pub name: String,
    pub attributes: String,
}

/// A piece of an XML document.
pub enum XmlEvent {
    Start(XmlTag),
    Empty(XmlTag),
    End(String),
    Text(String),
    Reference(String),
    Other,
    Eof,
    Malformed,
}

/// The opening of an element, as texts.
pub struct Tag {
    pub name: Seq<char>,
    pub attributes: Seq<char>,
}

/// A piece of an XML document, as texts.
pub enum Piece {
    Start(Tag),
    Empty(Tag),
    End(Seq<char>),
    Text(Seq<char>),
    Reference(Seq<char>),
    Other,
    Eof,
    Malformed,
}

impl View for XmlTag {
    type V = Tag;

    open spec fn view(&self) -> Tag {
        Tag { name: self.name@, attributes: self.attributes@ }
    }
}

impl View for XmlEvent {
    type V = Piece;

    open spec fn view(&self) -> Piece {
        match self {
            XmlEvent::Start(tag) => Piece::Start(tag@),
            XmlEvent::Empty(tag) => Piece::Empty(tag@),
            XmlEvent::End(name) => Piece::End(name@),
            XmlEvent::Text(text) => Piece::Text(text@),
            XmlEvent::Reference(name) => Piece::Reference(name@),
            XmlEvent::Other => Piece::Other,
            XmlEvent::Eof => Piece::Eof,
            XmlEvent::Malformed => Piece::Malformed,
        }
    }
}

/// Events as pieces.
pub open spec fn pieces(events: Seq<XmlEvent>) -> Seq<Piece> {
    events.map_values(|e: XmlEvent| e@)
}

/// `quick_xml::Reader`: what reads an XML text piece by piece.
#[verifier::external_type_specification]
#[verifier::external_body]
#[verifier::reject_recursive_types(R)]
pub struct ExReader<R>(quick_xml::Reader<R>);

/// What `quick_xml::Reader` reads from a text up to its end or its first error, which
/// is then the last piece. The end itself is not a piece.
pub uninterp spec fn xml_pieces(text: Seq<char>) -> Seq<Piece>;

/// What is left to read for an XML reader.
pub uninterp spec fn pieces_left(reader: quick_xml::Reader<&[u8]>) -> Seq<Piece>;

/// `quick_xml::Reader::from_str`, with text kept untrimmed: a reader before all that
/// the text holds.
#[verifier::external_body]
fn read_xml(text: &str) -> (reader: quick_xml::Reader<&[u8]>)
    ensures
        pieces_left(reader) == xml_pieces(text@),
{
    let mut reader = quick_xml::Reader::from_str(text);
    reader.config_mut().trim_text(false);
    reader
}

/// `quick_xml::Reader::read_event`: the next piece, `Eof` where nothing is left, and
/// `Malformed` for an error. Nothing is claimed of a reader after an error.
#[verifier::external_body]
fn next_event(reader: &mut quick_xml::Reader<&[u8]>) -> (event: XmlEvent)
    ensures
        event@ is Eof <==> pieces_left(*old(reader)).len() == 0,
        event@ !is Eof ==> event@ == pieces_left(*old(reader))[0],
        event@ is Malformed ==> pieces_left(*old(reader)).len() == 1,
        event@ !is Eof && event@ !is Malformed ==> pieces_left(*final(reader)) == pieces_left(
            *old(reader),
        ).drop_first(),
{
    let tag = |e: BytesStart<'_>| XmlTag {
        name: e.local_name().as_ref().to_string(),
        attributes: e.attributes_raw().to_string(),
    };
    match reader.read_event() {
        Ok(Event::Start(e)) => XmlEvent::Start(tag(e)),
        Ok(Event::Empty(e)) => XmlEvent::Empty(tag(e)),
        Ok(Event::End(e)) => XmlEvent::End(e.local_name().as_ref().to_string()),
        Ok(Event::Text(e)) => XmlEvent::Text(e.to_string()),
        Ok(Event::GeneralRef(e)) => XmlEvent::Reference(e.to_string()),
        Ok(Event::Eof) => XmlEvent::Eof,
        Ok(_) => XmlEvent::Other,
        Err(_) => XmlEvent::Malformed,
    }
}

/// Whether a sequence of pieces ends in an error.
pub open spec fn is_malformed(all: Seq<Piece>) -> bool {
    exists|i: int| 0 <= i < all.len() && #[trigger] all[i] is Malformed
}

/// All that an XML text holds, if it can be read to its end.
pub fn xml_events(text: &str) -> (r: Option<Vec<XmlEvent>>)
    ensures
        match r {
            Some(events) => pieces(events@) == xml_pieces(text@) && !is_malformed(
                xml_pieces(text@),
            ),
            None => is_malformed(xml_pieces(text@)),
        },
{
    let mut reader = read_xml(text);
    let mut events: Vec<XmlEvent> = Vec::new();
    let ghost all = xml_pieces(text@);
    assert(pieces(events@) + pieces_left(reader) =~= all);
    loop
        invariant
            all == xml_pieces(text@),
            pieces(events@) + pieces_left(reader) == all,
            forall|i: int| 0 <= i < events.len() ==> !(#[trigger] pieces(events@)[i] is Malformed),
        decreases pieces_left(reader).len(),
    {
        let ghost left = pieces_left(reader);
        let ghost done = pieces(events@);
        let event = next_event(&mut reader);
        match event {
            XmlEvent::Eof => {
                assert(pieces(events@) =~= all);
                return Some(events);
            },
            XmlEvent::Malformed => {
                assert(all[done.len() as int] is Malformed);
                return None;
            },
            _ => {
                events.push(event);
                assert(pieces(events@) =~= done.push(event@));
                assert(pieces(events@) + pieces_left(reader) =~= done + left);
            },
        }
    }
}

// ---------------------------------------------------------------------------
// Word headings
// ---------------------------------------------------------------------------

/// A style's name in lower case, without white space and hyphens.
pub open spec fn compact(style: Seq<char>) -> Seq<char>
    decreases style.len(),
{
    if style.len() == 0 {
        Seq::empty()
    } else {
        let before = compact(style.drop_last());
        if is_white_space(style.last()) || style.last() == '-' {
            before
        } else {
            before + lower_of_char(style.last())
        }
    }
}

/// The level of the heading that a style's name stands for: `heading` and a number
/// from one to six.
pub open spec fn heading_level(style: Seq<char>) -> Option<nat> {
    let name = compact(style);
    if starts_with(name, "heading"@) {
        match number_of(name.skip("heading"@.len() as int), usize::MAX as nat) {
            Some(n) if 1 <= n <= 6 => Some(n),
            _ => None,
        }
    } else {
        None
    }
}

/// The level of the heading that a style's name stands for.
pub fn docx_heading_level(style: &str) -> (r: Option<usize>)
    ensures
        match r {
            Some(n) => heading_level(style@) == Some(n as nat),
            None => heading_level(style@) is None,
        },
{
    let chars = chars_of(style);
    let mut name: String = String::new();
    let mut i: usize = 0;
    while i < chars.len()
        invariant
            i <= chars.len(),
            chars@ == style@,
            name@ == compact(style@.take(i as int)),
        decreases chars.len() - i,
    {
        assert(style@.take(i + 1).drop_last() =~= style@.take(i as int));
        let c: char = chars[i];
        if !c.is_whitespace() && c != '-' {
            let lower = lower_char(c);
            let text = slice_text(&lower, 0, lower.len());
            assert(text@ =~= lower@);
            name.append(text.as_str());
        }
        i = i + 1;
    }
    assert(style@.take(i as int) =~= style@);
    if !has_prefix(name.as_str(), "heading") {
        return None;
    }
    let word = chars_of(name.as_str());
    let at: usize = "heading".unicode_len();
    let digits = slice_text(&word, at, word.len());
    assert(digits@ =~= name@.skip(at as int));
    match parse_size(digits.as_str()) {
        Some(n) => if 1 <= n && n <= 6 {
            Some(n)
        } else {
            None
        },
        None => None,
    }
}

/// Attributes as pairs of texts.
pub open spec fn attribute_texts(v: Seq<Option<(String, String)>>) -> Seq<
    Option<(Seq<char>, Seq<char>)>,
> {
    v.map_values(
        |a: Option<(String, String)>|
            match a {
                Some(a) => Some((a.0@, a.1@)),
                None => None,
            },
    )
}

/// What `quick_xml::events::attributes::Attributes` reads from the text of the attributes
/// of an element.
pub uninterp spec fn xml_attributes(text: Seq<char>) -> Seq<Option<(Seq<char>, Seq<char>)>>;

/// `quick_xml::events::attributes::Attributes::new`, read to its end: the attributes in
/// order, each with its name without a prefix and its value as written, and `None` for one
/// that cannot be read. They depend on the text alone.
#[verifier::external_body]
fn read_attributes(text: &str) -> (out: Vec<Option<(String, String)>>)
    ensures
        attribute_texts(out@) == xml_attributes(text@),
{
    Attributes::new(text, 0).map(|a| a.ok().map(|a| (
        a.key.local_name().as_ref().to_string(), a.value.to_string()))).collect()
}

/// The trimmed value of the first readable attribute with that name.
pub open spec fn attribute(
    attributes: Seq<Option<(Seq<char>, Seq<char>)>>,
    name: Seq<char>,
) -> Option<Seq<char>>
    decreases attributes.len(),
{
    if attributes.len() == 0 {
        None
    } else {
        match attributes[0] {
            Some((key, value)) if key == name => Some(trim(value)),
            _ => attribute(attributes.drop_first(), name),
        }
    }
}

/// The trimmed value of the first readable attribute with that name.
pub fn first_value(all: &Vec<Option<(String, String)>>, name: &str) -> (r: Option<String>)
    ensures
        opt_text(r) == attribute(attribute_texts(all@), name@),
{
    let mut i: usize = 0;
    let ghost model = attribute_texts(all@);
    assert(model.skip(0) =~= model);
    while i < all.len()
        invariant
            i <= all.len(),
            model == attribute_texts(all@),
            attribute(model, name@) == attribute(model.skip(i as int), name@),
        decreases all.len() - i,
    {
        assert(model.skip(i as int).drop_first() =~= model.skip(i + 1));
        assert(model.skip(i as int)[0] == model[i as int]);
        if let Some(a) = &all[i] {
            if same(a.0.as_str(), name) {
                return Some(trimmed(a.1.as_str()));
            }
        }
        i = i + 1;
    }
    None
}

/// The trimmed value of the first readable attribute of an element with that name.
pub fn attribute_value(tag: &XmlTag, name: &str) -> (r: Option<String>)
    ensures
        opt_text(r) == attribute(xml_attributes(tag@.attributes), name@),
{
    first_value(&read_attributes(tag.attributes.as_str()), name)
}

// ---------------------------------------------------------------------------
// DOCX
// ---------------------------------------------------------------------------

/// What has been read of a Word document, as texts: the finished paragraphs, and the
/// text and style of the one that is open.
#[verifier::ext_equal]
pub struct Docx {
    pub paragraphs: Seq<Seq<char>>,
    pub text: Seq<char>,
    pub style: Option<Seq<char>>,
    pub in_paragraph: bool,
    pub in_text: bool,
}

/// Nothing has been read yet.
pub open spec fn blank_docx() -> Docx {
    Docx {
        paragraphs: Seq::empty(),
        text: Seq::empty(),
        style: None,
        in_paragraph: false,
        in_text: false,
    }
}

/// Some hash signs.
pub open spec fn hashes(n: nat) -> Seq<char> {
    Seq::new(n, |i: int| '#')
}

/// A paragraph in Markdown: a heading where its style says so.
pub open spec fn paragraph_markdown(text: Seq<char>, style: Option<Seq<char>>) -> Seq<char> {
    match style {
        Some(style) => match heading_level(style) {
            Some(level) => hashes(level) + " "@ + text,
            None => text,
        },
        None => text,
    }
}

/// What a named character reference stands for; one that XML does not define stands
/// for nothing.
pub open spec fn reference_text(name: Seq<char>) -> Seq<char> {
    if name == "amp"@ {
        "&"@
    } else if name == "lt"@ {
        "<"@
    } else if name == "gt"@ {
        ">"@
    } else if name == "apos"@ {
        "'"@
    } else if name == "quot"@ {
        "\""@
    } else {
        ""@
    }
}

/// After an element that stands inside a paragraph and holds nothing: its style, a tab
/// or a line break.
pub open spec fn after_mark(state: Docx, tag: Tag) -> Docx {
    if !state.in_paragraph {
        state
    } else if tag.name == "pStyle"@ {
        Docx { style: attribute(xml_attributes(tag.attributes), "val"@), ..state }
    } else if tag.name == "tab"@ {
        Docx { text: state.text.push('\t'), ..state }
    } else if tag.name == "br"@ || tag.name == "cr"@ {
        Docx { text: state.text.push('\n'), ..state }
    } else {
        state
    }
}

/// After the opening of an element.
pub open spec fn after_start(state: Docx, tag: Tag) -> Docx {
    if tag.name == "p"@ {
        Docx { in_paragraph: true, text: Seq::empty(), style: None, ..state }
    } else if tag.name == "t"@ {
        Docx { in_text: state.in_text || state.in_paragraph, ..state }
    } else {
        after_mark(state, tag)
    }
}

/// After the end of an element. A paragraph that holds more than white space is
/// finished.
pub open spec fn after_end(state: Docx, name: Seq<char>) -> Docx {
    if name == "t"@ {
        Docx { in_text: false, ..state }
    } else if name == "p"@ {
        Docx {
            paragraphs: if trim(state.text).len() == 0 {
                state.paragraphs
            } else {
                state.paragraphs.push(paragraph_markdown(trim(state.text), state.style))
            },
            text: Seq::empty(),
            style: None,
            in_paragraph: false,
            in_text: false,
        }
    } else {
        state
    }
}

/// After one more piece of the document.
pub open spec fn after_piece(state: Docx, piece: Piece) -> Docx {
    match piece {
        Piece::Start(tag) => after_start(state, tag),
        Piece::Empty(tag) => after_mark(state, tag),
        Piece::End(name) => after_end(state, name),
        Piece::Text(text) => if state.in_text {
            Docx { text: state.text + text, ..state }
        } else {
            state
        },
        Piece::Reference(name) => if state.in_text {
            Docx { text: state.text + reference_text(name), ..state }
        } else {
            state
        },
        _ => state,
    }
}

/// After these pieces of the document.
pub open spec fn docx_after(all: Seq<Piece>) -> Docx
    decreases all.len(),
{
    if all.len() == 0 {
        blank_docx()
    } else {
        after_piece(docx_after(all.drop_last()), all.last())
    }
}

/// What the XML of a Word document comes to: its paragraphs, or the reason why there
/// is none.
pub open spec fn docx_markdown(all: Seq<Piece>) -> Result<Seq<char>, Seq<char>> {
    if is_malformed(all) {
        Err("malformed DOCX document.xml"@)
    } else if docx_after(all).paragraphs.len() == 0 {
        Err("DOCX has no extractable paragraph text"@)
    } else {
        Ok(join(docx_after(all).paragraphs, "\n\n"@))
    }
}

/// What has been read of a Word document.
struct DocxReader {
    paragraphs: Vec<String>,
    text: String,
    style: Option<String>,
    in_paragraph: bool,
    in_text: bool,
}

impl View for DocxReader {
    type V = Docx;

    closed spec fn view(&self) -> Docx {
        Docx {
            paragraphs: texts(self.paragraphs@),
            text: self.text@,
            style: opt_text(self.style),
            in_paragraph: self.in_paragraph,
            in_text: self.in_text,
        }
    }
}

impl DocxReader {
    fn new() -> (r: Self)
        ensures
            r@ == blank_docx(),
    {
        let r = DocxReader {
            paragraphs: Vec::new(),
            text: String::new(),
            style: None,
            in_paragraph: false,
            in_text: false,
        };
        assert(r@ =~= blank_docx());
        r
    }

    fn mark(&mut self, tag: &XmlTag)
        ensures
            final(self)@ == after_mark(old(self)@, tag@),
    {
        if !self.in_paragraph {
        } else if same(tag.name.as_str(), "pStyle") {
            self.style = attribute_value(tag, "val");
        } else if same(tag.name.as_str(), "tab") {
            self.text.push('\t');
        } else if same(tag.name.as_str(), "br") || same(tag.name.as_str(), "cr") {
            self.text.push('\n');
        }
    }

    fn start(&mut self, tag: &XmlTag)
        ensures
            final(self)@ == after_start(old(self)@, tag@),
    {
        if same(tag.name.as_str(), "p") {
            self.in_paragraph = true;
            self.text = String::new();
            self.style = None;
        } else if same(tag.name.as_str(), "t") {
            self.in_text = self.in_text || self.in_paragraph;
        } else {
            self.mark(tag);
        }
    }

    fn end(&mut self, name: &str)
        ensures
            final(self)@ == after_end(old(self)@, name@),
    {
        if same(name, "t") {
            self.in_text = false;
        } else if same(name, "p") {
            let text = trimmed(self.text.as_str());
            if !text.as_str().is_empty() {
                let ghost before = texts(self.paragraphs@);
                let paragraph = markdown_of_paragraph(text, &self.style);
                self.paragraphs.push(paragraph);
                assert(texts(self.paragraphs@) =~= before.push(paragraph@));
            }
            self.in_paragraph = false;
            self.in_text = false;
            self.text = String::new();
            self.style = None;
            assert(self@ =~= after_end(old(self)@, name@));
        }
    }

    fn read(&mut self, event: &XmlEvent)
        ensures
            final(self)@ == after_piece(old(self)@, event@),
    {
        match event {
            XmlEvent::Start(tag) => self.start(tag),
            XmlEvent::Empty(tag) => self.mark(tag),
            XmlEvent::End(name) => self.end(name.as_str()),
            XmlEvent::Text(text) => {
                if self.in_text {
                    self.text.append(text.as_str());
                }
            },
            XmlEvent::Reference(name) => {
                if self.in_text {
                    self.text.append(decoded_reference(name.as_str()));
                }
            },
            _ => {},
        }
    }
}

/// What a named character reference stands for.
fn decoded_reference(name: &str) -> (out: &'static str)
    ensures
        out@ == reference_text(name@),
{
    if same(name, "amp") {
        "&"
    } else if same(name, "lt") {
        "<"
    } else if same(name, "gt") {
        ">"
    } else if same(name, "apos") {
        "'"
    } else if same(name, "quot") {
        "\""
    } else {
        ""
    }
}

/// A paragraph in Markdown.
fn markdown_of_paragraph(text: String, style: &Option<String>) -> (out: String)
    ensures
        out@ == paragraph_markdown(text@, opt_text(*style)),
{
    let level: Option<usize> = match style {
        Some(style) => docx_heading_level(style.as_str()),
        None => None,
    };
    match level {
        Some(level) => {
            let mut out: String = String::new();
            let mut i: usize = 0;
            while i < level
                invariant
                    i <= level,
                    out@ == hashes(i as nat),
                decreases level - i,
            {
                out.push('#');
                i = i + 1;
                assert(out@ =~= hashes(i as nat));
            }
            out.append(" ");
            out.append(text.as_str());
            out
        },
        None => text,
    }
}

/// The Markdown of a Word document, given all that its XML holds.
pub fn markdown_from_events(events: &Vec<XmlEvent>) -> (r: Result<String, String>)
    ensures
        result_text(r) == docx_markdown(pieces(events@)),
{
    let mut reader = DocxReader::new();
    let mut i: usize = 0;
    let ghost all = pieces(events@);
    while i < events.len()
        invariant
            i <= events.len(),
            all == pieces(events@),
            reader@ == docx_after(all.take(i as int)),
            forall|k: int| 0 <= k < i ==> !(#[trigger] all[k] is Malformed),
        decreases events.len() - i,
    {
        if let XmlEvent::Malformed = &events[i] {
            assert(all[i as int] is Malformed);
            return Err("malformed DOCX document.xml".to_owned());
        }
        assert(all.take(i + 1).drop_last() =~= all.take(i as int));
        reader.read(&events[i]);
        i = i + 1;
    }
    assert(all.take(i as int) =~= all);
    if reader.paragraphs.len() == 0 {
        return Err("DOCX has no extractable paragraph text".to_owned());
    }
    Ok(joined(&reader.paragraphs, "\n\n"))
}

/// The Markdown of a Word document, given its XML.
pub fn markdown_from_docx_xml(xml: &str) -> (r: Result<String, String>)
    ensures
        result_text(r) == docx_markdown(xml_pieces(xml@)),
{
    match xml_events(xml) {
        Some(events) => markdown_from_events(&events),
        None => Err("malformed DOCX document.xml".to_owned()),
    }
}

/// `std::io::Cursor`: a place in the bytes that an archive is read from.
#[verifier::external_type_specification]
#[verifier::external_body]
#[verifier::reject_recursive_types(T)]
pub struct ExCursor<T>(std::io::Cursor<T>);

/// `zip::ZipArchive`: an archive that was opened.
#[verifier::external_type_specification]
#[verifier::external_body]
#[verifier::reject_recursive_types(R)]
pub struct ExZipArchive<R>(zip::ZipArchive<R>);

/// The bytes that a ZIP archive is read from.
pub uninterp spec fn archive_bytes(archive: zip::ZipArchive<std::io::Cursor<&[u8]>>) -> Seq<u8>;

/// Whether `zip::ZipArchive::new` finds an archive in the bytes.
pub uninterp spec fn is_zip(bytes: Seq<u8>) -> bool;

/// `zip::ZipArchive::new` over a cursor at the start of the bytes. Whether it finds an
/// archive depends on the bytes alone.
#[verifier::external_body]
fn open_zip(bytes: &[u8]) -> (r: Option<zip::ZipArchive<std::io::Cursor<&[u8]>>>)
    ensures
        r is Some <==> is_zip(bytes@),
        r is Some ==> archive_bytes(r->0) == bytes@,
{
    zip::ZipArchive::new(std::io::Cursor::new(bytes)).ok()
}

/// What `zip::ZipArchive::by_name` and reading to the end give for a file of the
/// archive in these bytes: nothing if there is no such file, and no text if it cannot be
/// unpacked or is not UTF-8.
pub uninterp spec fn zip_entry(bytes: Seq<u8>, name: Seq<char>) -> Option<Option<Seq<char>>>;

/// `zip::ZipArchive::by_name`, and `read_to_string` on the file that it finds. What they
/// give depends on the bytes of the archive and the name alone, and the archive can be
/// read again.
#[verifier::external_body]
fn read_zip_entry(
    archive: &mut zip::ZipArchive<std::io::Cursor<&[u8]>>,
    name: &str,
) -> (r: Option<Option<String>>)
    ensures
        archive_bytes(*final(archive)) == archive_bytes(*old(archive)),
        match r {
            Some(text) => zip_entry(archive_bytes(*old(archive)), name@) == Some(opt_text(text)),
            None => zip_entry(archive_bytes(*old(archive)), name@) is None,
        },
{
    match archive.by_name(name) {
        Ok(mut file) => {
            let mut text = String::new();
            Some(std::io::Read::read_to_string(&mut file, &mut text).ok().map(|_| text))
        },
        Err(_) => None,
    }
}

/// The file of a DOCX package that holds the text.
pub const DOCX_DOCUMENT: &'static str = "word/document.xml";

/// What a DOCX package comes to, given whether it is an archive at all and what its
/// document is.
pub open spec fn docx_answer(is_archive: bool, document: Option<Option<Seq<char>>>) -> Result<
    Seq<char>,
    Seq<char>,
> {
    if !is_archive {
        Err("invalid DOCX ZIP container"@)
    } else {
        match document {
            None => Err("DOCX has no word/document.xml"@),
            Some(None) => Err("DOCX document.xml is not UTF-8 XML"@),
            Some(Some(xml)) => docx_markdown(xml_pieces(xml)),
        }
    }
}

/// The paragraphs, headings, tabs, line breaks and table cells of a DOCX package as
/// Markdown. Word's heading styles become Markdown headings.
pub fn extract_docx_markdown(bytes: &[u8]) -> (r: Result<String, String>)
    ensures
        result_text(r) == docx_answer(is_zip(bytes@), zip_entry(bytes@, DOCX_DOCUMENT@)),
{
    match open_zip(bytes) {
        Some(mut archive) => match read_zip_entry(&mut archive, DOCX_DOCUMENT) {
            Some(Some(xml)) => markdown_from_docx_xml(xml.as_str()),
            Some(None) => Err("DOCX document.xml is not UTF-8 XML".to_owned()),
            None => Err("DOCX has no word/document.xml".to_owned()),
        },
        None => Err("invalid DOCX ZIP container".to_owned()),
    }
}

// ---------------------------------------------------------------------------
// What the extraction promises
// ---------------------------------------------------------------------------

/// A page's section does not depend on the pages behind it: what the first pages come to
/// stays at the front, so that page headings are stable locators.
pub proof fn lemma_page_sections_are_stable(pages: Seq<Seq<char>>, n: int)
    requires
        0 <= n <= pages.len(),
    ensures
        page_sections(pages.take(n)).len() <= page_sections(pages).len(),
        page_sections(pages).take(page_sections(pages.take(n)).len() as int) == page_sections(
            pages.take(n),
        ),
    decreases pages.len(),
{
    if n < pages.len() {
        lemma_page_sections_are_stable(pages.drop_last(), n);
        assert(pages.drop_last().take(n) =~= pages.take(n));
        let k = page_sections(pages.take(n)).len() as int;
        assert(page_sections(pages).take(k) =~= page_sections(pages.drop_last()).take(k));
    } else {
        assert(pages.take(n) =~= pages);
        assert(page_sections(pages).take(page_sections(pages).len() as int) =~= page_sections(
            pages,
        ));
    }
}

/// A page with text has a section of its own, under its own number.
pub proof fn lemma_every_page_with_text_is_kept(pages: Seq<Seq<char>>, n: int)
    requires
        0 <= n < pages.len(),
        normalized(pages[n]).len() > 0,
    ensures
        page_sections(pages).contains(page_section((n + 1) as nat, pages[n])),
{
    let front = pages.take(n + 1);
    assert(front.last() == pages[n]);
    lemma_page_sections_are_stable(pages, n + 1);
    let k = page_sections(front).len() - 1;
    assert(page_sections(front)[k] == page_section((n + 1) as nat, pages[n]));
    assert(page_sections(pages).take(k + 1)[k] == page_sections(pages)[k]);
}

/// No paragraph of a Word document is empty.
pub proof fn lemma_paragraphs_hold_text(all: Seq<Piece>, i: int)
    requires
        0 <= i < docx_after(all).paragraphs.len(),
    ensures
        docx_after(all).paragraphs[i].len() > 0,
    decreases all.len(),
{
    if all.len() > 0 {
        let before = docx_after(all.drop_last());
        if i < before.paragraphs.len() {
            lemma_paragraphs_hold_text(all.drop_last(), i);
        }
    }
}

/// Only the end of a paragraph finishes one: a document without such an end holds no
/// paragraph.
pub proof fn lemma_paragraphs_need_an_end(all: Seq<Piece>)
    requires
        forall|i: int| 0 <= i < all.len() ==> #[trigger] all[i] != Piece::End("p"@),
    ensures
        docx_after(all).paragraphs.len() == 0,
    decreases all.len(),
{
    if all.len() > 0 {
        let last = all.len() - 1;
        assert(all[last] != Piece::End("p"@));
        assert forall|i: int| 0 <= i < all.drop_last().len() implies #[trigger] all.drop_last()[i]
            != Piece::End("p"@) by {
            assert(all[i] != Piece::End("p"@));
        }
        lemma_paragraphs_need_an_end(all.drop_last());
    }
}

} // verus!
