//! The document amount extractor: reads an invoice document as XML and takes
//! from it the one field that a batch needs.
//!
//! The document is cut into tokens by the XML reader of `quick_xml`. What is
//! made of the tokens is decided here, by a small state machine: the first
//! element is the root, the field is the child of the root named
//! `totalAmount`, with or without a namespace prefix, and its value is the
//! character data inside it.

use quick_xml::events::Event;
use vstd::prelude::*;
use vstd::string::*;

verus! {

/// One piece of an XML document, as the reader hands it out.
pub enum XmlToken {
    /// A start tag, with the element's name.
    Open(String),
    /// An empty-element tag, with the element's name.
    Empty(String),
    /// An end tag. The reader has checked that it closes the element that is open.
    Close,
    /// Character data between tags, as written.
    Text(String),
    /// The content of a CDATA section.
    CData(String),
    /// A reference `&name;`, with its name.
    Reference(String),
    /// A comment, a declaration, a processing instruction or a document type.
    Markup,
    /// The end of the document.
    End,
    /// The reader found the document ill-formed.
    Malformed,
}

/// A token with its texts as sequences of characters.
pub enum XmlTokenView {
    Open(Seq<char>),
    Empty(Seq<char>),
    Close,
    Text(Seq<char>),
    CData(Seq<char>),
    Reference(Seq<char>),
    Markup,
    End,
    Malformed,
}

impl View for XmlToken {
    type V = XmlTokenView;

    open spec fn view(&self) -> XmlTokenView {
        match self {
            XmlToken::Open(name) => XmlTokenView::Open(name@),
            XmlToken::Empty(name) => XmlTokenView::Empty(name@),
            XmlToken::Close => XmlTokenView::Close,
            XmlToken::Text(text) => XmlTokenView::Text(text@),
            XmlToken::CData(text) => XmlTokenView::CData(text@),
            XmlToken::Reference(name) => XmlTokenView::Reference(name@),
            XmlToken::Markup => XmlTokenView::Markup,
            XmlToken::End => XmlTokenView::End,
            XmlToken::Malformed => XmlTokenView::Malformed,
        }
    }
}

/// The XML reader of `quick_xml`.
#[verifier::external_type_specification]
#[verifier::external_body]
#[verifier::reject_recursive_types(R)]
pub struct ExReader<R>(quick_xml::Reader<R>);

/// What the reader gives at its `index`-th read, counted from zero, when it
/// reads the document `text` from the start.
pub uninterp spec fn xml_token_at(text: Seq<char>, index: nat) -> XmlTokenView;

/// The document that a reader was made for, and the number of reads made on it.
pub uninterp spec fn reading(reader: quick_xml::Reader<&[u8]>) -> (Seq<char>, nat);

/// `quick_xml::Reader::from_str`: a reader at the start of the document.
#[verifier::external_body]
fn open_reader<'a>(text: &'a str) -> (reader: quick_xml::Reader<&'a [u8]>)
    ensures
        reading(reader) == (text@, 0nat),
{
    quick_xml::Reader::from_str(text)
}

/// `quick_xml::Reader::read_event`: what a read gives depends on the document
/// and on the number of reads before it, and on nothing else.
#[verifier::external_body]
fn next_token(reader: &mut quick_xml::Reader<&[u8]>) -> (token: XmlToken)
    ensures
        token@ == xml_token_at(reading(*old(reader)).0, reading(*old(reader)).1),
        reading(*final(reader)) == (reading(*old(reader)).0, reading(*old(reader)).1 + 1),
{
    match reader.read_event() {
        Err(_) => XmlToken::Malformed,
        Ok(event) => match event {
            Event::Start(e) => XmlToken::Open(e.name().0.to_owned()),
            Event::Empty(e) => XmlToken::Empty(e.name().0.to_owned()),
            Event::End(_) => XmlToken::Close,
            Event::Text(e) => XmlToken::Text(e.into_inner().into_owned()),
            Event::CData(e) => XmlToken::CData(e.into_inner().into_owned()),
            Event::GeneralRef(e) => XmlToken::Reference(e.into_inner().into_owned()),
            Event::Comment(_) | Event::Decl(_) | Event::PI(_) | Event::DocType(_) => XmlToken::Markup,
            Event::Eof => XmlToken::End,
        },
    }
}

/// What a batch reads of an invoice document: its one required field.
pub struct Invoice {
    /// The text of the document's `totalAmount` field, exactly as the
    /// document holds it. It is never read as a number.
    pub total_amount: String,
}

/// Why a document gives no invoice.
#[derive(Clone, Copy, PartialEq, Eq, Structural, Debug)]
pub enum ExtractError {
    /// The document is not well-formed XML.
    NotWellFormed,
    /// The root element has no child named `totalAmount`.
    MissingField,
    /// The field occurs more than once, or holds elements instead of text.
    InvalidField,
}

/// The name of the required field.
pub open spec fn field_name() -> Seq<char> {
    "totalAmount"@
}

/// The local part of an element's name: what follows the first colon, or the
/// whole name where it has no colon.
pub open spec fn local_name(name: Seq<char>) -> Seq<char> {
    match name.index_of_first(':') {
        Some(colon) => name.skip(colon + 1),
        None => name,
    }
}

/// Whether an element's name is that of the field, whatever its prefix.
pub open spec fn names_field(name: Seq<char>) -> bool {
    local_name(name) == field_name()
}

/// The deepest nesting below the root that the extractor follows.
pub const MAX_DEPTH: u64 = u64::MAX;

/// Whether a character is XML white space.
pub open spec fn is_xml_space(c: char) -> bool {
    c == ' ' || c == '\t' || c == '\n' || c == '\r'
}

/// Whether a text consists of XML white space only.
pub open spec fn is_blank_text(text: Seq<char>) -> bool {
    forall|i: int| 0 <= i < text.len() ==> is_xml_space(#[trigger] text[i])
}

/// A reference as it stands in a document: an ampersand, the name, a semicolon.
pub open spec fn reference_text(name: Seq<char>) -> Seq<char> {
    seq!['&'] + name + seq![';']
}

/// Where the extractor stands in a document.
pub enum Scan {
    /// Before the root element.
    Prolog,
    /// Inside the root element, `skipping` elements deep in a child that is
    /// not the field, with the field's text if it was seen.
    Root { skipping: nat, amount: Option<Seq<char>> },
    /// Inside the field, with the text gathered so far.
    Field { text: Seq<char> },
    /// The root element has closed, or the document has failed.
    Finished(Result<Seq<char>, ExtractError>),
}

/// The extractor's state after one more token.
///
/// Before the root, only white space and markup may stand. Inside the root,
/// the first child whose local name is `totalAmount` is the field; other
/// children are passed over with everything in them. Inside the field, character data,
/// CDATA sections and references are gathered as they are written; an element
/// there makes the field invalid, and so does a second field. The end tag of
/// the root finishes the document. The end of the input, or an ill-formed
/// piece, before that makes the document not well-formed.
pub open spec fn step(state: Scan, token: XmlTokenView) -> Scan {
    match state {
        Scan::Finished(_) => state,
        Scan::Prolog => match token {
            XmlTokenView::Open(_) => Scan::Root { skipping: 0, amount: None },
            XmlTokenView::Empty(_) => Scan::Finished(Err(ExtractError::MissingField)),
            XmlTokenView::Text(text) => if is_blank_text(text) {
                Scan::Prolog
            } else {
                Scan::Finished(Err(ExtractError::NotWellFormed))
            },
            XmlTokenView::Markup => Scan::Prolog,
            _ => Scan::Finished(Err(ExtractError::NotWellFormed)),
        },
        Scan::Root { skipping, amount } => match token {
            XmlTokenView::Open(name) => if skipping > 0 {
                if skipping < MAX_DEPTH {
                    Scan::Root { skipping: skipping + 1, amount }
                } else {
                    Scan::Finished(Err(ExtractError::NotWellFormed))
                }
            } else if !names_field(name) {
                Scan::Root { skipping: 1, amount }
            } else if amount is None {
                Scan::Field { text: Seq::empty() }
            } else {
                Scan::Finished(Err(ExtractError::InvalidField))
            },
            XmlTokenView::Empty(name) => if skipping > 0 || !names_field(name) {
                state
            } else if amount is None {
                Scan::Root { skipping: 0, amount: Some(Seq::empty()) }
            } else {
                Scan::Finished(Err(ExtractError::InvalidField))
            },
            XmlTokenView::Close => if skipping > 0 {
                Scan::Root { skipping: (skipping - 1) as nat, amount }
            } else {
                match amount {
                    Some(text) => Scan::Finished(Ok(text)),
                    None => Scan::Finished(Err(ExtractError::MissingField)),
                }
            },
            XmlTokenView::End => Scan::Finished(Err(ExtractError::NotWellFormed)),
            XmlTokenView::Malformed => Scan::Finished(Err(ExtractError::NotWellFormed)),
            _ => state,
        },
        Scan::Field { text } => match token {
            XmlTokenView::Text(more) => Scan::Field { text: text + more },
            XmlTokenView::CData(more) => Scan::Field { text: text + more },
            XmlTokenView::Reference(name) => Scan::Field { text: text + reference_text(name) },
            XmlTokenView::Markup => state,
            XmlTokenView::Close => Scan::Root { skipping: 0, amount: Some(text) },
            XmlTokenView::Open(_) => Scan::Finished(Err(ExtractError::InvalidField)),
            XmlTokenView::Empty(_) => Scan::Finished(Err(ExtractError::InvalidField)),
            XmlTokenView::End => Scan::Finished(Err(ExtractError::NotWellFormed)),
            XmlTokenView::Malformed => Scan::Finished(Err(ExtractError::NotWellFormed)),
        },
    }
}

/// The extractor's state after a sequence of tokens, from the start of a document.
pub open spec fn scan(tokens: Seq<XmlTokenView>) -> Scan
    decreases tokens.len(),
{
    if tokens.len() == 0 {
        Scan::Prolog
    } else {
        step(scan(tokens.drop_last()), tokens.last())
    }
}

/// What a state amounts to when no more tokens come: a document that has not
/// finished is not well-formed.
pub open spec fn outcome(state: Scan) -> Result<Seq<char>, ExtractError> {
    match state {
        Scan::Finished(result) => result,
        _ => Err(ExtractError::NotWellFormed),
    }
}

/// The first `count` tokens that the reader gives for a document.
pub open spec fn document_tokens(text: Seq<char>, count: nat) -> Seq<XmlTokenView> {
    Seq::new(count, |k: int| xml_token_at(text, k as nat))
}

/// The number of reads after which the extractor gives a document up: every
/// token but the last takes at least one byte of the document.
pub open spec fn read_budget(text: Seq<char>) -> nat {
    vstd::utf8::encode_utf8(text).len() + 1
}

/// The total amount of a document, or why it has none.
pub open spec fn document_amount(text: Seq<char>) -> Result<Seq<char>, ExtractError> {
    outcome(scan(document_tokens(text, read_budget(text))))
}

/// The views of a sequence of tokens.
pub open spec fn token_views(tokens: Seq<XmlToken>) -> Seq<XmlTokenView> {
    tokens.map_values(|token: XmlToken| token@)
}

/// An extraction result with the amount as a sequence of characters.
pub open spec fn amount_of(result: Result<Invoice, ExtractError>) -> Result<
    Seq<char>,
    ExtractError,
> {
    match result {
        Ok(invoice) => Ok(invoice.total_amount@),
        Err(error) => Err(error),
    }
}

/// Once a document has finished, further tokens change nothing.
pub proof fn lemma_finished_is_final(tokens: Seq<XmlTokenView>, more: Seq<XmlTokenView>)
    requires
        scan(tokens) is Finished,
    ensures
        scan(tokens + more) == scan(tokens),
    decreases more.len(),
{
    if more.len() == 0 {
        assert(tokens + more =~= tokens);
    } else {
        lemma_finished_is_final(tokens, more.drop_last());
        assert((tokens + more).drop_last() =~= tokens + more.drop_last());
        assert((tokens + more).last() == more.last());
    }
}

/// Whether a token is a tag of an element with the field's name.
pub open spec fn is_field_tag(token: XmlTokenView) -> bool {
    match token {
        XmlTokenView::Open(name) => names_field(name),
        XmlTokenView::Empty(name) => names_field(name),
        _ => false,
    }
}

/// A document without an element named `totalAmount` never gives an amount.
pub proof fn lemma_no_field_no_amount(tokens: Seq<XmlTokenView>)
    requires
        forall|i: int| 0 <= i < tokens.len() ==> !is_field_tag(#[trigger] tokens[i]),
    ensures
        outcome(scan(tokens)) is Err,
        scan(tokens) matches Scan::Root { amount, .. } ==> amount is None,
        !(scan(tokens) is Field),
    decreases tokens.len(),
{
    if tokens.len() > 0 {
        let earlier = tokens.drop_last();
        assert forall|i: int| 0 <= i < earlier.len() implies !is_field_tag(
            #[trigger] earlier[i],
        ) by {
            assert(earlier[i] == tokens[i]);
        }
        lemma_no_field_no_amount(earlier);
        assert(tokens.last() == tokens[tokens.len() - 1]);
        assert(!is_field_tag(tokens.last()));
    }
}

/// An ill-formed piece, or the end of the input, before the root element has
/// closed makes the document not well-formed.
pub proof fn lemma_broken_document_fails(tokens: Seq<XmlTokenView>, last: XmlTokenView)
    requires
        !(scan(tokens) is Finished),
        last is Malformed || last is End,
    ensures
        scan(tokens.push(last)) == Scan::Finished(Err(ExtractError::NotWellFormed)),
{
    assert(tokens.push(last).drop_last() =~= tokens);
}

/// The tokens of closed elements with text in them, one after the other.
pub open spec fn plain_children(children: Seq<(Seq<char>, Seq<char>)>) -> Seq<XmlTokenView>
    decreases children.len(),
{
    if children.len() == 0 {
        Seq::empty()
    } else {
        plain_children(children.drop_last()) + seq![
            XmlTokenView::Open(children.last().0),
            XmlTokenView::Text(children.last().1),
            XmlTokenView::Close,
        ]
    }
}

/// Whether a token is character data or markup that may stand inside the field.
pub open spec fn is_field_content(token: XmlTokenView) -> bool {
    token is Text || token is CData || token is Reference || token is Markup
}

/// What one token inside the field adds to its text: character data and the
/// content of a CDATA section as they are, a reference as it is written,
/// markup nothing.
pub open spec fn written(token: XmlTokenView) -> Seq<char> {
    match token {
        XmlTokenView::Text(text) => text,
        XmlTokenView::CData(text) => text,
        XmlTokenView::Reference(name) => reference_text(name),
        _ => Seq::empty(),
    }
}

/// The text of the field's content: what its tokens add, in order.
pub open spec fn gathered(content: Seq<XmlTokenView>) -> Seq<char>
    decreases content.len(),
{
    if content.len() == 0 {
        Seq::empty()
    } else {
        gathered(content.drop_last()) + written(content.last())
    }
}

/// The tokens of a plain document: the root's start tag, children before the
/// field, the field with its content, children after it, the root's end tag.
pub open spec fn plain_document(
    root: Seq<char>,
    before: Seq<(Seq<char>, Seq<char>)>,
    content: Seq<XmlTokenView>,
    after: Seq<(Seq<char>, Seq<char>)>,
) -> Seq<XmlTokenView> {
    seq![XmlTokenView::Open(root)] + plain_children(before) + seq![
        XmlTokenView::Open(field_name()),
    ] + content + seq![XmlTokenView::Close] + plain_children(after) + seq![XmlTokenView::Close]
}

/// The field's name has no prefix: it is its own local name.
pub proof fn lemma_field_names_itself()
    ensures
        names_field(field_name()),
{
    reveal_strlit("totalAmount");
    let name = field_name();
    name.index_of_first_ensures(':');
    if name.index_of_first(':') is Some {
        let colon = name.index_of_first(':')->0;
        assert(name[colon] == ':');
    }
}

/// The first token is taken from the start of the document.
proof fn lemma_scan_first(token: XmlTokenView)
    ensures
        scan(seq![token]) == step(Scan::Prolog, token),
{
    assert(seq![token].drop_last() =~= Seq::<XmlTokenView>::empty());
    assert(scan(seq![token].drop_last()) == Scan::Prolog);
}

/// One more token is one more step.
proof fn lemma_scan_push(tokens: Seq<XmlTokenView>, token: XmlTokenView)
    ensures
        scan(tokens.push(token)) == step(scan(tokens), token),
{
    assert(tokens.push(token).drop_last() =~= tokens);
}

/// Children that are not the field leave the extractor where it was.
proof fn lemma_plain_children_are_passed(
    tokens: Seq<XmlTokenView>,
    children: Seq<(Seq<char>, Seq<char>)>,
    amount: Option<Seq<char>>,
)
    requires
        scan(tokens) == (Scan::Root { skipping: 0, amount }),
        forall|i: int| 0 <= i < children.len() ==> !names_field((#[trigger] children[i]).0),
    ensures
        scan(tokens + plain_children(children)) == (Scan::Root { skipping: 0, amount }),
    decreases children.len(),
{
    if children.len() == 0 {
        assert(tokens + plain_children(children) =~= tokens);
    } else {
        let earlier = children.drop_last();
        assert forall|i: int| 0 <= i < earlier.len() implies !names_field(
            (#[trigger] earlier[i]).0,
        ) by {
            assert(earlier[i] == children[i]);
        }
        lemma_plain_children_are_passed(tokens, earlier, amount);
        let head = tokens + plain_children(earlier);
        let child = children.last();
        assert(child == children[children.len() - 1]);
        lemma_scan_push(head, XmlTokenView::Open(child.0));
        let a = head.push(XmlTokenView::Open(child.0));
        lemma_scan_push(a, XmlTokenView::Text(child.1));
        let b = a.push(XmlTokenView::Text(child.1));
        lemma_scan_push(b, XmlTokenView::Close);
        assert(b.push(XmlTokenView::Close) =~= tokens + plain_children(children));
    }
}

/// Inside the field, character data is gathered as it is written.
proof fn lemma_field_content_is_gathered(
    tokens: Seq<XmlTokenView>,
    content: Seq<XmlTokenView>,
    text: Seq<char>,
)
    requires
        scan(tokens) == (Scan::Field { text }),
        forall|i: int| 0 <= i < content.len() ==> is_field_content(#[trigger] content[i]),
    ensures
        scan(tokens + content) == (Scan::Field { text: text + gathered(content) }),
    decreases content.len(),
{
    if content.len() == 0 {
        assert(tokens + content =~= tokens);
        assert(text + gathered(content) =~= text);
    } else {
        let earlier = content.drop_last();
        assert forall|i: int| 0 <= i < earlier.len() implies is_field_content(
            #[trigger] earlier[i],
        ) by {
            assert(earlier[i] == content[i]);
        }
        lemma_field_content_is_gathered(tokens, earlier, text);
        assert(content.last() == content[content.len() - 1]);
        lemma_scan_push(tokens + earlier, content.last());
        assert((tokens + earlier).push(content.last()) =~= tokens + content);
        assert(text + gathered(earlier) + written(content.last()) =~= text + gathered(content));
    }
}

/// The plain document: a root element whose children are closed elements
/// with text in them, one of them the field, which holds character data
/// only. Its amount is what the field's content holds, character for
/// character and nothing else.
pub proof fn lemma_plain_document_gives_its_text(
    root: Seq<char>,
    before: Seq<(Seq<char>, Seq<char>)>,
    content: Seq<XmlTokenView>,
    after: Seq<(Seq<char>, Seq<char>)>,
)
    requires
        forall|i: int| 0 <= i < before.len() ==> !names_field((#[trigger] before[i]).0),
        forall|i: int| 0 <= i < after.len() ==> !names_field((#[trigger] after[i]).0),
        forall|i: int| 0 <= i < content.len() ==> is_field_content(#[trigger] content[i]),
    ensures
        outcome(scan(plain_document(root, before, content, after))) == Ok::<
            Seq<char>,
            ExtractError,
        >(gathered(content)),
{
    let amount = gathered(content);
    let head = seq![XmlTokenView::Open(root)] + plain_children(before);
    lemma_field_names_itself();
    lemma_scan_first(XmlTokenView::Open(root));
    lemma_plain_children_are_passed(seq![XmlTokenView::Open(root)], before, None);
    lemma_scan_push(head, XmlTokenView::Open(field_name()));
    let a = head.push(XmlTokenView::Open(field_name()));
    lemma_field_content_is_gathered(a, content, Seq::empty());
    assert(Seq::<char>::empty() + amount =~= amount);
    let b = a + content;
    lemma_scan_push(b, XmlTokenView::Close);
    let c = b.push(XmlTokenView::Close);
    assert(scan(c) == Scan::Root { skipping: 0, amount: Some(amount) });
    lemma_plain_children_are_passed(c, after, Some(amount));
    let d = c + plain_children(after);
    lemma_scan_push(d, XmlTokenView::Close);
    assert(d.push(XmlTokenView::Close) =~= plain_document(root, before, content, after));
}

/// A field that holds one piece of text gives that text.
pub proof fn lemma_single_text_is_the_amount(text: Seq<char>)
    ensures
        gathered(seq![XmlTokenView::Text(text)]) == text,
{
    let content = seq![XmlTokenView::Text(text)];
    assert(content.drop_last() =~= Seq::<XmlTokenView>::empty());
    assert(gathered(content.drop_last()) =~= Seq::<char>::empty());
    assert(Seq::<char>::empty() + text =~= text);
}

/// The characters of a text.
fn chars_of(text: &str) -> (chars: Vec<char>)
    ensures
        chars@ == text@,
{
    let mut chars: Vec<char> = Vec::new();
    for c in it: text.chars()
        invariant
            it.seq() == text@,
            chars@ == it.seq().take(it.index() as int),
    {
        proof {
            assert(it.seq().take(it.index() + 1) =~= it.seq().take(it.index() as int).push(c));
        }
        chars.push(c);
    }
    proof {
        assert(text@.take(text@.len() as int) =~= text@);
    }
    chars
}

/// Whether a text consists of XML white space only.
fn is_blank(text: &str) -> (blank: bool)
    ensures
        blank == is_blank_text(text@),
{
    let chars = chars_of(text);
    let mut i: usize = 0;
    while i < chars.len()
        invariant
            i <= chars.len(),
            chars@ == text@,
            forall|k: int| 0 <= k < i ==> is_xml_space(#[trigger] text@[k]),
        decreases chars.len() - i,
    {
        let c = chars[i];
        if !(c == ' ' || c == '\t' || c == '\n' || c == '\r') {
            return false;
        }
        i += 1;
    }
    true
}

/// Whether an element's name is that of the field, whatever its prefix.
fn is_field(name: &str) -> (is_field: bool)
    ensures
        is_field == names_field(name@),
{
    let chars = chars_of(name);
    let field = chars_of("totalAmount");
    let mut colon: usize = 0;
    while colon < chars.len() && chars[colon] != ':'
        invariant
            colon <= chars.len(),
            forall|k: int| 0 <= k < colon ==> chars@[k] != ':',
        decreases chars.len() - colon,
    {
        colon += 1;
    }
    let start = if colon < chars.len() {
        colon + 1
    } else {
        0
    };
    proof {
        name@.index_of_first_ensures(':');
        if colon < chars.len() {
            assert(name@.contains(':'));
            let first = name@.index_of_first(':')->0;
            assert(first == colon) by {
                if first < colon {
                    assert(chars@[first] != ':');
                }
            }
        } else {
            if name@.contains(':') {
                let k = choose|k: int| 0 <= k < name@.len() && name@[k] == ':';
                assert(chars@[k] != ':');
            }
        }
        assert(local_name(name@) == name@.skip(start as int));
    }
    if chars.len() - start != field.len() {
        return false;
    }
    let mut i: usize = 0;
    while i < field.len()
        invariant
            i <= field.len(),
            start <= chars.len(),
            chars.len() - start == field.len(),
            chars@ == name@,
            field@ == field_name(),
            local_name(name@) == name@.skip(start as int),
            forall|k: int| 0 <= k < i ==> chars@[start + k] == field@[k],
        decreases field.len() - i,
    {
        if chars[start + i] != field[i] {
            assert(name@.skip(start as int)[i as int] != field_name()[i as int]);
            return false;
        }
        i += 1;
    }
    assert(name@.skip(start as int) =~= field_name());
    true
}

enum Progress {
    Prolog,
    Root { skipping: u64, amount: Option<String> },
    Field { text: String },
    Finished(Result<Invoice, ExtractError>),
}

/// The extractor at some point in a document.
pub struct Extractor {
    progress: Progress,
}

impl View for Extractor {
    type V = Scan;

    closed spec fn view(&self) -> Scan {
        match self.progress {
            Progress::Prolog => Scan::Prolog,
            Progress::Root { skipping, amount } => Scan::Root {
                skipping: skipping as nat,
                amount: match amount {
                    Some(text) => Some(text@),
                    None => None,
                },
            },
            Progress::Field { text } => Scan::Field { text: text@ },
            Progress::Finished(result) => Scan::Finished(amount_of(result)),
        }
    }
}

impl Extractor {
    /// An extractor at the start of a document.
    pub fn new() -> (extractor: Self)
        ensures
            extractor@ == Scan::Prolog,
    {
        Extractor { progress: Progress::Prolog }
    }

    /// Whether the document has finished.
    pub fn is_finished(&self) -> (finished: bool)
        ensures
            finished == (self@ is Finished),
    {
        match &self.progress {
            Progress::Finished(_) => true,
            _ => false,
        }
    }

    /// Takes the next token of the document.
    pub fn step(self, token: &XmlToken) -> (next: Self)
        ensures
            next@ == step(self@, token@),
    {
        let progress = match self.progress {
            Progress::Finished(result) => Progress::Finished(result),
            Progress::Prolog => match token {
                XmlToken::Open(_) => Progress::Root { skipping: 0, amount: None },
                XmlToken::Empty(_) => Progress::Finished(Err(ExtractError::MissingField)),
                XmlToken::Text(text) => if is_blank(text.as_str()) {
                    Progress::Prolog
                } else {
                    Progress::Finished(Err(ExtractError::NotWellFormed))
                },
                XmlToken::Markup => Progress::Prolog,
                _ => Progress::Finished(Err(ExtractError::NotWellFormed)),
            },
            Progress::Root { skipping, amount } => match token {
                XmlToken::Open(name) => if skipping > 0 {
                    if skipping < MAX_DEPTH {
                        Progress::Root { skipping: skipping + 1, amount }
                    } else {
                        Progress::Finished(Err(ExtractError::NotWellFormed))
                    }
                } else if !is_field(name.as_str()) {
                    Progress::Root { skipping: 1, amount }
                } else if amount.is_none() {
                    Progress::Field { text: String::new() }
                } else {
                    Progress::Finished(Err(ExtractError::InvalidField))
                },
                XmlToken::Empty(name) => if skipping > 0 || !is_field(name.as_str()) {
                    Progress::Root { skipping, amount }
                } else if amount.is_none() {
                    Progress::Root { skipping: 0, amount: Some(String::new()) }
                } else {
                    Progress::Finished(Err(ExtractError::InvalidField))
                },
                XmlToken::Close => if skipping > 0 {
                    Progress::Root { skipping: skipping - 1, amount }
                } else {
                    match amount {
                        Some(text) => Progress::Finished(Ok(Invoice { total_amount: text })),
                        None => Progress::Finished(Err(ExtractError::MissingField)),
                    }
                },
                XmlToken::End => Progress::Finished(Err(ExtractError::NotWellFormed)),
                XmlToken::Malformed => Progress::Finished(Err(ExtractError::NotWellFormed)),
                _ => Progress::Root { skipping, amount },
            },
            Progress::Field { text } => match token {
                XmlToken::Text(more) => {
                    let mut text = text;
                    text.append(more.as_str());
                    Progress::Field { text }
                },
                XmlToken::CData(more) => {
                    let mut text = text;
                    text.append(more.as_str());
                    Progress::Field { text }
                },
                XmlToken::Reference(name) => {
                    proof {
                        reveal_strlit("&");
                        reveal_strlit(";");
                    }
                    let ghost before = text@;
                    let mut text = text;
                    text.append("&");
                    text.append(name.as_str());
                    text.append(";");
                    proof {
                        assert("&"@ =~= seq!['&']);
                        assert(";"@ =~= seq![';']);
                        assert(text@ =~= before + reference_text(name@));
                    }
                    Progress::Field { text }
                },
                XmlToken::Markup => Progress::Field { text },
                XmlToken::Close => Progress::Root { skipping: 0, amount: Some(text) },
                XmlToken::Open(_) => Progress::Finished(Err(ExtractError::InvalidField)),
                XmlToken::Empty(_) => Progress::Finished(Err(ExtractError::InvalidField)),
                XmlToken::End => Progress::Finished(Err(ExtractError::NotWellFormed)),
                XmlToken::Malformed => Progress::Finished(Err(ExtractError::NotWellFormed)),
            },
        };
        Extractor { progress }
    }

    /// What the document gave, when no more tokens come.
    pub fn finish(self) -> (result: Result<Invoice, ExtractError>)
        ensures
            amount_of(result) == outcome(self@),
    {
        match self.progress {
            Progress::Finished(result) => result,
            _ => Err(ExtractError::NotWellFormed),
        }
    }
}

/// The invoice in a document that was already cut into tokens.
pub fn invoice_from_tokens(tokens: &[XmlToken]) -> (result: Result<Invoice, ExtractError>)
    ensures
        amount_of(result) == outcome(scan(token_views(tokens@))),
{
    let ghost all = token_views(tokens@);
    let mut extractor = Extractor::new();
    let mut i: usize = 0;
    proof {
        assert(all.take(0) =~= Seq::<XmlTokenView>::empty());
    }
    while i < tokens.len()
        invariant
            i <= tokens.len(),
            all == token_views(tokens@),
            extractor@ == scan(all.take(i as int)),
        decreases tokens.len() - i,
    {
        proof {
            assert(all.take(i as int + 1).drop_last() =~= all.take(i as int));
            assert(all.take(i as int + 1).last() == tokens@[i as int]@);
        }
        extractor = extractor.step(&tokens[i]);
        i += 1;
    }
    proof {
        assert(all.take(i as int) =~= all);
    }
    extractor.finish()
}

/// The invoice in a document: its `totalAmount`, as the document holds it, or
/// why the document has none.
pub fn extract_invoice(text: &str) -> (result: Result<Invoice, ExtractError>)
    ensures
        amount_of(result) == document_amount(text@),
{
    let mut reader = open_reader(text);
    let mut extractor = Extractor::new();
    let budget = text.as_bytes().len();
    let mut read: usize = 0;
    proof {
        assert(document_tokens(text@, 0) =~= Seq::<XmlTokenView>::empty());
    }
    loop
        invariant_except_break
            reading(reader) == (text@, read as nat),
            extractor@ == scan(document_tokens(text@, read as nat)),
        invariant
            read <= budget,
            budget + 1 == read_budget(text@),
        ensures
            extractor@ == scan(document_tokens(text@, read_budget(text@))),
        decreases budget - read,
    {
        if extractor.is_finished() {
            proof {
                let seen = document_tokens(text@, read as nat);
                let all = document_tokens(text@, read_budget(text@));
                let more = all.skip(read as int);
                assert(seen + more =~= all);
                lemma_finished_is_final(seen, more);
            }
            break ;
        }
        let token = next_token(&mut reader);
        proof {
            let seen = document_tokens(text@, read as nat);
            let longer = document_tokens(text@, (read + 1) as nat);
            assert(longer.drop_last() =~= seen);
            assert(longer.last() == token@);
        }
        extractor = extractor.step(&token);
        if read == budget {
            break ;
        }
        read += 1;
    }
    extractor.finish()
}

} // verus!
