//! Documents and their pages.
use crate::error::LiteParseError;
use crate::extract::extract_page_text_items;
use crate::geometry::{filter_images, ImageBounds};
use crate::glyph::PageContentCollector;
use crate::scalar::Scalar;
use crate::types::{Page, PdfInput};
use hayro::hayro_interpret::hayro_syntax::{DecryptionError, LoadPdfError, Pdf};
use std::sync::Arc;
use vstd::prelude::*;

verus! {

use crate::extract::page_items;
use crate::geometry::{lemma_relevant_images, relevant_images};
use crate::glyph::ContentView;
use crate::scalar::signed;
use crate::types::{page_views, PageView};
use vstd::math::min;

/// An open document: hayro's `Pdf`.
#[verifier::external_type_specification]
#[verifier::external_body]
pub struct ExPdf(Pdf);

/// An open document.
pub type Document = Pdf;

/// What is wrong with an encrypted document.
#[derive(Clone, Copy, Debug, PartialEq, Eq, Structural)]
pub enum DecryptionFailure {
    MissingIDEntry,
    PasswordProtected,
    InvalidEncryption,
    UnsupportedAlgorithm,
}

/// Why a document could not be opened.
#[derive(Clone, Copy, Debug, PartialEq, Eq, Structural)]
pub enum LoadFailure {
    Decryption(DecryptionFailure),
    Invalid,
}

/// The width and height of each page of a document, as binary32 bit patterns.
pub uninterp spec fn page_sizes(document: Pdf) -> Seq<(u32, u32)>;

/// The bytes that a document was opened from, which `Pdf::data` gives back.
pub uninterp spec fn document_data(document: Pdf) -> Seq<u8>;

/// Whether opening these bytes with this password may end in `outcome`: a document with pages of
/// the given sizes, or a failure.
///
/// It is a relation and not a function: hayro walks hash maps while it reads crypt filters and
/// while it searches a damaged file for pages, and their order can show in the outcome.
///
/// It holds of no outcome at all for bytes and a password with which hayro can panic or not
/// return. Among these are an encryption dictionary with a `V` of 2 or 4 whose `Length` is over
/// 128 bits, a cross-reference section that is reached from itself through `Prev`, and a page
/// tree that runs in a circle through objects in object streams.
pub uninterp spec fn may_open(
    data: Seq<u8>,
    password: Seq<char>,
    outcome: Result<Seq<(u32, u32)>, LoadFailure>,
) -> bool;

/// Whether opening these bytes with this password ends, in a document or in a failure.
pub open spec fn ends(data: Seq<u8>, password: Seq<char>) -> bool {
    exists|outcome: Result<Seq<(u32, u32)>, LoadFailure>| may_open(data, password, outcome)
}

/// What became of opening a document.
pub open spec fn outcome(r: Result<Pdf, LoadFailure>) -> Result<Seq<(u32, u32)>, LoadFailure> {
    match r {
        Ok(document) => Ok(page_sizes(document)),
        Err(failure) => Err(failure),
    }
}

/// `Pdf::new_with_password` opens the bytes of a PDF file, where it neither panics nor runs on.
/// What comes of it is a possible outcome for these bytes and this password; nothing is claimed
/// of which one. A document keeps the bytes. `Pdf::new` is this call with an empty password.
#[verifier::external_body]
fn open_with_password(data: Vec<u8>, password: &str) -> (r: Result<Pdf, LoadFailure>)
    requires
        ends(data@, password@),
    ensures
        may_open(data@, password@, outcome(r)),
        r matches Ok(document) ==> document_data(document) == data@,
{
    match Pdf::new_with_password(Arc::new(data), password) {
        Ok(document) => Ok(document),
        Err(LoadPdfError::Invalid) => Err(LoadFailure::Invalid),
        Err(LoadPdfError::Decryption(e)) => Err(
            LoadFailure::Decryption(
                match e {
                    DecryptionError::MissingIDEntry => DecryptionFailure::MissingIDEntry,
                    DecryptionError::PasswordProtected => DecryptionFailure::PasswordProtected,
                    DecryptionError::InvalidEncryption => DecryptionFailure::InvalidEncryption,
                    DecryptionError::UnsupportedAlgorithm => DecryptionFailure::UnsupportedAlgorithm,
                },
            ),
        ),
    }
}

/// `Pdf::pages` gives the pages of the document as a slice. Its length is the number of page
/// sizes, the same at every call.
#[verifier::external_body]
fn page_count(document: &Pdf) -> (n: usize)
    ensures
        n == page_sizes(*document).len(),
{
    document.pages().len()
}

/// `Page::render_dimensions` gives the width and height of a page. They depend on the page alone
/// and are the same at every call.
#[verifier::external_body]
fn render_dimensions(document: &Pdf, index: usize) -> (size: (u32, u32))
    requires
        index < page_sizes(*document).len(),
    ensures
        size == page_sizes(*document)[index as int],
{
    let (width, height) = document.pages()[index].render_dimensions();
    (width.to_bits(), height.to_bits())
}

/// The name of a failure, as it is reported.
pub open spec fn failure_text(failure: LoadFailure) -> Seq<char> {
    match failure {
        LoadFailure::Invalid => "Invalid"@,
        LoadFailure::Decryption(DecryptionFailure::MissingIDEntry) => "Decryption(MissingIDEntry)"@,
        LoadFailure::Decryption(
            DecryptionFailure::PasswordProtected,
        ) => "Decryption(PasswordProtected)"@,
        LoadFailure::Decryption(
            DecryptionFailure::InvalidEncryption,
        ) => "Decryption(InvalidEncryption)"@,
        LoadFailure::Decryption(
            DecryptionFailure::UnsupportedAlgorithm,
        ) => "Decryption(UnsupportedAlgorithm)"@,
    }
}

/// Whether `e` reports that a document could not be opened, and why.
pub open spec fn reports(e: LiteParseError, failure: LoadFailure) -> bool {
    e matches LiteParseError::Pdf(text) && text@ == failure_text(failure)
}

/// The error that reports a failure to open a document.
pub fn load_error(failure: LoadFailure) -> (e: LiteParseError)
    ensures
        reports(e, failure),
{
    let text: &'static str = match failure {
        LoadFailure::Invalid => "Invalid",
        LoadFailure::Decryption(DecryptionFailure::MissingIDEntry) => "Decryption(MissingIDEntry)",
        LoadFailure::Decryption(
            DecryptionFailure::PasswordProtected,
        ) => "Decryption(PasswordProtected)",
        LoadFailure::Decryption(
            DecryptionFailure::InvalidEncryption,
        ) => "Decryption(InvalidEncryption)",
        LoadFailure::Decryption(
            DecryptionFailure::UnsupportedAlgorithm,
        ) => "Decryption(UnsupportedAlgorithm)",
    };
    LiteParseError::Pdf(text.to_owned())
}

/// The password that an absent one stands for.
pub open spec fn effective_password(password: Option<&str>) -> Seq<char> {
    match password {
        Some(password) => password@,
        None => Seq::empty(),
    }
}

/// An absent password and an empty one are the same: opening ends with both or with neither, and
/// with the same possible outcomes.
pub proof fn lemma_absent_password_is_empty(data: Seq<u8>, password: &str)
    requires
        password@.len() == 0,
    ensures
        effective_password(Some(password)) == effective_password(None),
        ends(data, effective_password(Some(password))) == ends(data, effective_password(None)),
        forall|outcome: Result<Seq<(u32, u32)>, LoadFailure>|
            may_open(data, effective_password(Some(password)), outcome) == may_open(
                data,
                effective_password(None),
                outcome,
            ),
{
    assert(password@ =~= Seq::empty());
}

/// Whether `document` is what opening these bytes with this password may give.
pub open spec fn opens(data: Seq<u8>, password: Seq<char>, document: Pdf) -> bool {
    document_data(document) == data && may_open(data, password, Ok(page_sizes(document)))
}

/// Whether `e` reports a failure that opening these bytes with this password may end in.
pub open spec fn refuses(data: Seq<u8>, password: Seq<char>, e: LiteParseError) -> bool {
    exists|failure: LoadFailure|
        #![trigger reports(e, failure)]
        reports(e, failure) && may_open(data, password, Err(failure))
}

/// Whether opening these bytes with this password may end in `loaded`.
pub open spec fn may_load_bytes(
    data: Seq<u8>,
    password: Option<&str>,
    loaded: Result<Pdf, LiteParseError>,
) -> bool {
    match loaded {
        Ok(document) => opens(data, effective_password(password), document),
        Err(e) => refuses(data, effective_password(password), e),
    }
}

/// Opens a PDF from its bytes with an optional password.
pub fn load_document(data: Vec<u8>, password: Option<&str>) -> (r: Result<Document, LiteParseError>)
    requires
        ends(data@, effective_password(password)),
    ensures
        may_load_bytes(data@, password, r),
{
    let password: &str = match password {
        Some(password) => password,
        None => {
            proof {
                reveal_strlit("");
            }
            assert(""@ =~= Seq::empty());
            ""
        },
    };
    let opened: Result<Pdf, LoadFailure> = open_with_password(data, password);
    match opened {
        Ok(document) => Ok(document),
        Err(failure) => {
            let e: LiteParseError = load_error(failure);
            assert(reports(e, failure));
            Err(e)
        },
    }
}

/// What reading a file gave, with the bytes as a sequence.
pub open spec fn supplied(result: Result<Vec<u8>, std::io::Error>) -> Result<
    Seq<u8>,
    std::io::Error,
> {
    match result {
        Ok(data) => Ok(data@),
        Err(e) => Err(e),
    }
}

/// Whether reading `path` may give `result`.
pub open spec fn may_read<R: Fn(&String) -> Result<Vec<u8>, std::io::Error>>(
    read: R,
    path: String,
    result: Result<Vec<u8>, std::io::Error>,
) -> bool {
    call_ensures(read, (&path,), result)
}

/// Whether `got` is what the bytes of `input` are: those it holds, or what reading its path gives.
pub open spec fn supplies<R: Fn(&String) -> Result<Vec<u8>, std::io::Error>>(
    input: PdfInput,
    read: R,
    got: Result<Seq<u8>, std::io::Error>,
) -> bool {
    match input {
        PdfInput::Bytes(data) => got == Ok::<Seq<u8>, std::io::Error>(data@),
        PdfInput::Path(path) => exists|result: Result<Vec<u8>, std::io::Error>|
            #![trigger may_read(read, path, result)]
            may_read(read, path, result) && got == supplied(result),
    }
}

/// Whether a document may be asked for: its path may be read, and opening the bytes ends.
pub open spec fn loadable<R: Fn(&String) -> Result<Vec<u8>, std::io::Error>>(
    input: PdfInput,
    password: Option<&str>,
    read: R,
) -> bool {
    &&& input matches PdfInput::Path(path) ==> call_requires(read, (&path,))
    &&& forall|data: Seq<u8>|
        #![trigger ends(data, effective_password(password))]
        supplies(input, read, Ok(data)) ==> ends(data, effective_password(password))
}

/// Whether asking for a document may end in `loaded`: in what opening its bytes gives, or in the
/// error of reading its path.
pub open spec fn may_load<R: Fn(&String) -> Result<Vec<u8>, std::io::Error>>(
    input: PdfInput,
    password: Option<&str>,
    read: R,
    loaded: Result<Pdf, LiteParseError>,
) -> bool {
    exists|got: Result<Seq<u8>, std::io::Error>|
        #![trigger supplies(input, read, got)]
        supplies(input, read, got) && (match got {
            Ok(data) => may_load_bytes(data, password, loaded),
            Err(io) => loaded == Err::<Pdf, LiteParseError>(LiteParseError::Io(io)),
        })
}

fn bytes_of<R: Fn(&String) -> Result<Vec<u8>, std::io::Error>>(input: &PdfInput, read: R) -> (r:
    Result<Vec<u8>, std::io::Error>)
    requires
        input matches PdfInput::Path(path) ==> call_requires(read, (&path,)),
    ensures
        supplies(*input, read, supplied(r)),
{
    match input {
        PdfInput::Path(path) => {
            let result: Result<Vec<u8>, std::io::Error> = read(path);
            assert(may_read(read, *path, result));
            result
        },
        PdfInput::Bytes(data) => {
            let copy: Vec<u8> = data.clone();
            assert(copy@ =~= data@);
            Ok(copy)
        },
    }
}

/// Opens a PDF from path or bytes with an optional password. A path is read with `read`.
pub fn load_document_from_input<R: Fn(&String) -> Result<Vec<u8>, std::io::Error>>(
    input: &PdfInput,
    password: Option<&str>,
    read: R,
) -> (r: Result<Document, LiteParseError>)
    requires
        loadable(*input, password, read),
    ensures
        may_load(*input, password, read, r),
{
    match bytes_of(input, read) {
        Ok(data) => {
            assert(supplies(*input, read, Ok(data@)));
            assert(ends(data@, effective_password(password)));
            load_document(data, password)
        },
        Err(io) => {
            assert(supplies(*input, read, Err(io)));
            Err(LiteParseError::Io(io))
        },
    }
}

/// An absent password and an empty one load the same.
pub proof fn lemma_absent_password_loads_alike<
    R: Fn(&String) -> Result<Vec<u8>, std::io::Error>,
>(input: PdfInput, password: &str, read: R, loaded: Result<Pdf, LiteParseError>)
    requires
        password@.len() == 0,
    ensures
        loadable(input, Some(password), read) == loadable(input, None, read),
        may_load(input, Some(password), read, loaded) == may_load(input, None, read, loaded),
{
    assert(effective_password(Some(password)) =~= effective_password(None));
    assert forall|data: Seq<u8>|
        may_load_bytes(data, Some(password), loaded) == #[trigger] may_load_bytes(
            data,
            None,
            loaded,
        ) by {}
}

/// A path loads what the bytes of its file load: where reading it gives `data`, the two inputs
/// end the same.
pub proof fn lemma_path_is_its_bytes<R: Fn(&String) -> Result<Vec<u8>, std::io::Error>>(
    path: String,
    data: Vec<u8>,
    password: Option<&str>,
    read: R,
    loaded: Result<Pdf, LiteParseError>,
)
    requires
        may_read(read, path, Ok(data)),
        forall|result: Result<Vec<u8>, std::io::Error>|
            may_read(read, path, result) ==> result == Ok::<Vec<u8>, std::io::Error>(data),
    ensures
        forall|got: Result<Seq<u8>, std::io::Error>|
            supplies(PdfInput::Path(path), read, got) == supplies(PdfInput::Bytes(data), read, got),
        may_load(PdfInput::Path(path), password, read, loaded) == may_load(
            PdfInput::Bytes(data),
            password,
            read,
            loaded,
        ),
{
    let input = PdfInput::Path(path);
    assert(input->Path_0 == path);
    assert(supplied(Ok(data)) == Ok::<Seq<u8>, std::io::Error>(data@));
    let held = PdfInput::Bytes(data);
    assert(held->Bytes_0 == data);
    assert forall|got: Result<Seq<u8>, std::io::Error>|
        #[trigger] supplies(input, read, got) == supplies(held, read, got) by {}
    assert(supplies(input, read, Ok(data@)));
    assert(supplies(held, read, Ok(data@)));
}

/// Where reading a path fails with `io`, loading ends in that error alone.
pub proof fn lemma_unreadable_path<R: Fn(&String) -> Result<Vec<u8>, std::io::Error>>(
    path: String,
    io: std::io::Error,
    password: Option<&str>,
    read: R,
    loaded: Result<Pdf, LiteParseError>,
)
    requires
        may_read(read, path, Err(io)),
        forall|result: Result<Vec<u8>, std::io::Error>|
            may_read(read, path, result) ==> result == Err::<Vec<u8>, std::io::Error>(io),
    ensures
        may_load(PdfInput::Path(path), password, read, loaded) == (loaded == Err::<
            Pdf,
            LiteParseError,
        >(LiteParseError::Io(io))),
{
    let input = PdfInput::Path(path);
    assert(input->Path_0 == path);
    assert(supplied(Err(io)) == Err::<Seq<u8>, std::io::Error>(io));
    assert(supplies(input, read, Err(io)));
}

/// Bytes that can only be refused load as a `Pdf` error with the name of a failure.
pub proof fn lemma_refused_bytes<R: Fn(&String) -> Result<Vec<u8>, std::io::Error>>(
    data: Vec<u8>,
    password: Option<&str>,
    read: R,
    loaded: Result<Pdf, LiteParseError>,
)
    requires
        forall|outcome: Result<Seq<(u32, u32)>, LoadFailure>|
            may_open(data@, effective_password(password), outcome) ==> outcome is Err,
        may_load(PdfInput::Bytes(data), password, read, loaded),
    ensures
        loaded matches Err(LiteParseError::Pdf(text)) && exists|failure: LoadFailure|
            text@ == #[trigger] failure_text(failure) && may_open(
                data@,
                effective_password(password),
                Err(failure),
            ),
{
    let held = PdfInput::Bytes(data);
    assert(held->Bytes_0 == data);
}

/// Whether the page with the given number is asked for.
pub open spec fn wanted(page_number: int, target_pages: Option<&[u32]>) -> bool {
    match target_pages {
        Some(targets) => exists|i: int|
            0 <= i < targets@.len() && #[trigger] targets@[i] == page_number,
        None => true,
    }
}

/// The indices of the pages that are extracted out of the first `n`: those that are asked for,
/// the first `max_pages` of them.
pub open spec fn selected(n: int, target_pages: Option<&[u32]>, max_pages: int) -> Seq<int>
    decreases n,
{
    if n <= 0 {
        Seq::empty()
    } else {
        let before = selected(n - 1, target_pages, max_pages);
        if wanted(n, target_pages) && before.len() < max_pages {
            before.push(n - 1)
        } else {
            before
        }
    }
}

fn is_wanted(page_number: usize, target_pages: Option<&[u32]>) -> (b: bool)
    ensures
        b == wanted(page_number as int, target_pages),
{
    match target_pages {
        None => true,
        Some(targets) => {
            let mut i: usize = 0;
            while i < targets.len()
                invariant
                    i <= targets.len(),
                    target_pages == Some(targets),
                    forall|j: int| 0 <= j < i ==> #[trigger] targets@[j] != page_number,
                decreases targets.len() - i,
            {
                if targets[i] as u64 == page_number as u64 {
                    assert(target_pages->0@[i as int] == page_number as int);
                    assert(wanted(page_number as int, target_pages));
                    return true;
                }
                i = i + 1;
            }
            false
        },
    }
}

proof fn lemma_selected(n: int, target_pages: Option<&[u32]>, max_pages: int)
    requires
        max_pages >= 0,
    ensures
        ({
            let s = selected(n, target_pages, max_pages);
            &&& s.len() <= max_pages
            &&& forall|k: int|
                0 <= k < s.len() ==> 0 <= #[trigger] s[k] < n && wanted(s[k] + 1, target_pages)
            &&& forall|j: int, k: int| 0 <= j < k < s.len() ==> s[j] < s[k]
            &&& forall|i: int|
                0 <= i < n && #[trigger] wanted(i + 1, target_pages) ==> s.contains(i) || (s.len()
                    == max_pages && forall|k: int| 0 <= k < s.len() ==> #[trigger] s[k] < i)
        }),
    decreases n,
{
    if n > 0 {
        lemma_selected(n - 1, target_pages, max_pages);
        let before = selected(n - 1, target_pages, max_pages);
        let s = selected(n, target_pages, max_pages);
        assert forall|i: int| 0 <= i < n && #[trigger] wanted(i + 1, target_pages) implies s.contains(
            i,
        ) || (s.len() == max_pages && forall|k: int| 0 <= k < s.len() ==> #[trigger] s[k] < i) by {
            if i == n - 1 {
                if before.len() < max_pages {
                    assert(s[s.len() - 1] == i);
                }
            } else if before.contains(i) {
                let k = choose|k: int| 0 <= k < before.len() && before[k] == i;
                assert(s[k] == i);
            }
        }
    }
}

/// The pages that are extracted are among those asked for, in the order of the document, each
/// once and at most `max_pages`; one that is asked for is left out only where `max_pages` others
/// come before it.
pub proof fn lemma_selected_pages(n: nat, target_pages: Option<&[u32]>, max_pages: nat)
    ensures
        ({
            let s = selected(n as int, target_pages, max_pages as int);
            &&& s.len() <= max_pages
            &&& forall|k: int|
                0 <= k < s.len() ==> 0 <= #[trigger] s[k] < n && wanted(s[k] + 1, target_pages)
            &&& forall|j: int, k: int| 0 <= j < k < s.len() ==> s[j] < s[k]
            &&& forall|i: int|
                0 <= i < n && #[trigger] wanted(i + 1, target_pages) ==> s.contains(i) || (s.len()
                    == max_pages && forall|k: int| 0 <= k < s.len() ==> #[trigger] s[k] < i)
        }),
{
    lemma_selected(n as int, target_pages, max_pages as int);
}

/// A smaller `max_pages` selects the first pages that a larger one does.
pub proof fn lemma_fewer_selected(
    n: nat,
    target_pages: Option<&[u32]>,
    max_pages: nat,
    larger: nat,
)
    requires
        max_pages <= larger,
    ensures
        ({
            let all = selected(n as int, target_pages, larger as int);
            selected(n as int, target_pages, max_pages as int) == all.take(
                min(max_pages as int, all.len() as int),
            )
        }),
    decreases n,
{
    if n > 0 {
        lemma_fewer_selected((n - 1) as nat, target_pages, max_pages, larger);
    }
}

/// Only which pages of the document are asked for matters: the order of a list, what it repeats
/// and numbers that no page has are without effect, and no list is the same as one of all pages.
pub proof fn lemma_selected_by_membership(
    n: nat,
    a: Option<&[u32]>,
    b: Option<&[u32]>,
    max_pages: nat,
)
    requires
        forall|page_number: int|
            1 <= page_number <= n ==> #[trigger] wanted(page_number, a) == wanted(page_number, b),
    ensures
        selected(n as int, a, max_pages as int) == selected(n as int, b, max_pages as int),
    decreases n,
{
    if n > 0 {
        lemma_selected_by_membership((n - 1) as nat, a, b, max_pages);
        assert(wanted(n as int, a) == wanted(n as int, b));
    }
}

/// Asking for every page by its number is asking for all of them.
pub proof fn lemma_all_listed(n: nat, targets: &[u32], max_pages: nat)
    requires
        forall|page_number: int|
            1 <= page_number <= n ==> #[trigger] wanted(page_number, Some(targets)),
    ensures
        selected(n as int, Some(targets), max_pages as int) == selected(
            n as int,
            None,
            max_pages as int,
        ),
{
    lemma_selected_by_membership(n, Some(targets), None, max_pages);
}

/// A page of the given number and size with the given content.
pub open spec fn page_view(page_number: int, size: (u32, u32), content: ContentView) -> PageView {
    PageView {
        page_number: page_number as nat,
        page_width: Scalar { bits: size.0 },
        page_height: Scalar { bits: size.1 },
        text_items: page_items(content.glyphs),
    }
}

/// Extracts the text of one page from what was drawn on it.
pub fn extract_page(page_number: usize, size: (u32, u32), content: PageContentCollector) -> (page:
    Page)
    ensures
        page@ == page_view(page_number as int, size, content@),
{
    Page {
        page_number,
        page_width: Scalar::from_bits(size.0),
        page_height: Scalar::from_bits(size.1),
        text_items: extract_page_text_items(content.glyphs),
    }
}

/// Whether `page` is the page at `index` of `document`, with the content that `collect` gives
/// for it.
pub open spec fn extracted<C: Fn(&Pdf, usize) -> PageContentCollector>(
    document: &Pdf,
    index: int,
    collect: C,
    page: PageView,
) -> bool {
    exists|content: PageContentCollector|
        #![trigger call_ensures(collect, (document, index as usize), content)]
        call_ensures(collect, (document, index as usize), content) && page == page_view(
            index + 1,
            page_sizes(*document)[index],
            content@,
        )
}

/// Whether `pages` are the selected pages of `document`.
pub open spec fn all_extracted<C: Fn(&Pdf, usize) -> PageContentCollector>(
    document: &Pdf,
    indices: Seq<int>,
    collect: C,
    pages: Seq<Page>,
) -> bool {
    &&& pages.len() == indices.len()
    &&& forall|k: int|
        0 <= k < pages.len() ==> extracted(document, indices[k], collect, #[trigger] pages[k]@)
}

/// Whether `pages` may be extracted from `document`: those with the numbers in `target_pages`, or
/// all of them, at most `max_pages`.
pub open spec fn may_give<C: Fn(&Pdf, usize) -> PageContentCollector>(
    document: &Pdf,
    target_pages: Option<&[u32]>,
    max_pages: int,
    collect: C,
    pages: Seq<Page>,
) -> bool {
    all_extracted(
        document,
        selected(page_sizes(*document).len() as int, target_pages, max_pages),
        collect,
        pages,
    )
}

/// Extracts pages from an open document: those with the numbers in `target_pages`, or all of
/// them, at most `max_pages`. What is drawn on a page comes from `collect`.
pub fn extract_pages_from_document<C: Fn(&Pdf, usize) -> PageContentCollector>(
    document: &Document,
    target_pages: Option<&[u32]>,
    max_pages: usize,
    collect: C,
) -> (r: Result<Vec<Page>, LiteParseError>)
    requires
        forall|i: usize|
            i < page_sizes(*document).len() ==> call_requires(collect, (document, i)),
    ensures
        r matches Ok(pages) && may_give(
            document,
            target_pages,
            max_pages as int,
            collect,
            pages@,
        ),
{
    let mut pages: Vec<Page> = Vec::new();
    let count: usize = page_count(document);
    let mut index: usize = 0;
    let ghost sizes = page_sizes(*document);
    while index < count
        invariant
            index <= count == sizes.len(),
            sizes == page_sizes(*document),
            forall|i: usize| i < sizes.len() ==> call_requires(collect, (document, i)),
            pages.len() <= max_pages,
            all_extracted(
                document,
                selected(index as int, target_pages, max_pages as int),
                collect,
                pages@,
            ),
        decreases count - index,
    {
        let page_number: usize = index + 1;
        if is_wanted(page_number, target_pages) {
            if pages.len() >= max_pages {
                proof {
                    lemma_selected_full(
                        index as int,
                        count as int,
                        target_pages,
                        max_pages as int,
                    );
                }
                return Ok(pages);
            }
            let size: (u32, u32) = render_dimensions(document, index);
            let content: PageContentCollector = collect(document, index);
            let ghost before = pages@;
            let page: Page = extract_page(page_number, size, content);
            assert(extracted(document, index as int, collect, page@));
            pages.push(page);
            proof {
                let chosen = selected(page_number as int, target_pages, max_pages as int);
                assert forall|k: int| 0 <= k < pages.len() implies extracted(
                    document,
                    chosen[k],
                    collect,
                    #[trigger] pages@[k]@,
                ) by {
                    if k < before.len() {
                        assert(pages@[k] == before[k]);
                    }
                }
            }
        }
        index = index + 1;
    }
    Ok(pages)
}

/// Once enough pages are selected, later ones add nothing.
proof fn lemma_selected_full(n: int, m: int, target_pages: Option<&[u32]>, max_pages: int)
    requires
        0 <= n <= m,
        selected(n, target_pages, max_pages).len() >= max_pages,
    ensures
        selected(m, target_pages, max_pages) == selected(n, target_pages, max_pages),
    decreases m - n,
{
    if n < m {
        lemma_selected_full(n, m - 1, target_pages, max_pages);
    }
}

/// Whether two documents show the same: they have pages of the same sizes, and what `collect`
/// finds on a page of one, it finds on that page of the other.
pub open spec fn alike<C: Fn(&Pdf, usize) -> PageContentCollector>(
    a: &Pdf,
    b: &Pdf,
    collect: C,
) -> bool {
    &&& page_sizes(*a) == page_sizes(*b)
    &&& forall|i: usize, x: PageContentCollector, y: PageContentCollector|
        i < page_sizes(*a).len() && #[trigger] call_ensures(collect, (a, i), x)
            && #[trigger] call_ensures(collect, (b, i), y) ==> x@ == y@
}

proof fn lemma_alike_pages<C: Fn(&Pdf, usize) -> PageContentCollector>(
    a: &Pdf,
    b: &Pdf,
    index: int,
    collect: C,
    p: PageView,
    q: PageView,
)
    requires
        alike(a, b, collect),
        0 <= index < page_sizes(*a).len(),
        extracted(a, index, collect, p),
        extracted(b, index, collect, q),
    ensures
        p == q,
{
    let i = index as usize;
    let x = choose|x: PageContentCollector|
        #![trigger call_ensures(collect, (a, i), x)]
        call_ensures(collect, (a, i), x) && p == page_view(index + 1, page_sizes(*a)[index], x@);
    let y = choose|y: PageContentCollector|
        #![trigger call_ensures(collect, (b, i), y)]
        call_ensures(collect, (b, i), y) && q == page_view(index + 1, page_sizes(*b)[index], y@);
    assert(i < page_sizes(*a).len());
    assert(call_ensures(collect, (a, i), x));
    assert(call_ensures(collect, (b, i), y));
}

/// With a smaller `max_pages` a document gives the first of the pages that it gives with a larger
/// one, and with none it gives none.
pub proof fn lemma_fewer_pages<C: Fn(&Pdf, usize) -> PageContentCollector>(
    a: &Pdf,
    b: &Pdf,
    target_pages: Option<&[u32]>,
    max_pages: nat,
    larger: nat,
    collect: C,
    fewer: Seq<Page>,
    more: Seq<Page>,
)
    requires
        max_pages <= larger,
        alike(a, b, collect),
        may_give(a, target_pages, max_pages as int, collect, fewer),
        may_give(b, target_pages, larger as int, collect, more),
    ensures
        page_views(fewer) == page_views(more).take(min(max_pages as int, more.len() as int)),
        max_pages == 0 ==> fewer.len() == 0,
{
    let n = page_sizes(*a).len();
    lemma_fewer_selected(n, target_pages, max_pages, larger);
    lemma_selected(n as int, target_pages, max_pages as int);
    let indices = selected(n as int, target_pages, max_pages as int);
    assert forall|k: int| 0 <= k < fewer.len() implies (#[trigger] fewer[k])@ == more[k]@ by {
        assert(0 <= indices[k] < n);
        lemma_alike_pages(a, b, indices[k], collect, fewer[k]@, more[k]@);
    }
    assert(page_views(fewer) =~= page_views(more).take(min(max_pages as int, more.len() as int)));
}

/// Two lists that ask for the same pages of a document are given the same pages.
pub proof fn lemma_pages_by_membership<C: Fn(&Pdf, usize) -> PageContentCollector>(
    a: &Pdf,
    b: &Pdf,
    s: Option<&[u32]>,
    t: Option<&[u32]>,
    max_pages: nat,
    collect: C,
    pages: Seq<Page>,
    others: Seq<Page>,
)
    requires
        forall|page_number: int|
            1 <= page_number <= page_sizes(*a).len() ==> #[trigger] wanted(page_number, s)
                == wanted(page_number, t),
        alike(a, b, collect),
        may_give(a, s, max_pages as int, collect, pages),
        may_give(b, t, max_pages as int, collect, others),
    ensures
        page_views(pages) == page_views(others),
{
    let n = page_sizes(*a).len();
    lemma_selected_by_membership(n, s, t, max_pages);
    lemma_selected(n as int, s, max_pages as int);
    let indices = selected(n as int, s, max_pages as int);
    assert forall|k: int| 0 <= k < pages.len() implies (#[trigger] pages[k])@ == others[k]@ by {
        assert(0 <= indices[k] < n);
        lemma_alike_pages(a, b, indices[k], collect, pages[k]@, others[k]@);
    }
    assert(page_views(pages) =~= page_views(others));
}

/// Whether extraction may end in `r`: loading ends in a document and `r` holds pages that it
/// gives, or loading fails and `r` is its error.
pub open spec fn may_extract<
    R: Fn(&String) -> Result<Vec<u8>, std::io::Error>,
    C: Fn(&Pdf, usize) -> PageContentCollector,
>(
    input: PdfInput,
    target_pages: Option<&[u32]>,
    max_pages: int,
    password: Option<&str>,
    read: R,
    collect: C,
    r: Result<Vec<Page>, LiteParseError>,
) -> bool {
    exists|loaded: Result<Pdf, LiteParseError>|
        #![trigger may_load(input, password, read, loaded)]
        may_load(input, password, read, loaded) && (match loaded {
            Ok(document) => r matches Ok(pages) && may_give(
                &document,
                target_pages,
                max_pages,
                collect,
                pages@,
            ),
            Err(e) => r == Err::<Vec<Page>, LiteParseError>(e),
        })
}

/// Extracts pages from a path or bytes, with filtering. A path is read with `read`, and what is
/// drawn on a page comes from `collect`.
pub fn extract_pages_from_input<
    R: Fn(&String) -> Result<Vec<u8>, std::io::Error>,
    C: Fn(&Pdf, usize) -> PageContentCollector,
>(
    input: &PdfInput,
    target_pages: Option<&[u32]>,
    max_pages: usize,
    password: Option<&str>,
    read: R,
    collect: C,
) -> (r: Result<Vec<Page>, LiteParseError>)
    requires
        loadable(*input, password, read),
        forall|document: &Pdf, i: usize|
            i < page_sizes(*document).len() ==> call_requires(collect, (document, i)),
    ensures
        may_extract(*input, target_pages, max_pages as int, password, read, collect, r),
{
    let loaded: Result<Document, LiteParseError> = load_document_from_input(input, password, read);
    let ghost given = loaded;
    assert(may_load(*input, password, read, given));
    match loaded {
        Ok(document) => extract_pages_from_document(&document, target_pages, max_pages, collect),
        Err(e) => Err(e),
    }
}

/// Extraction fails exactly as loading does, whatever pages are asked for, even none; and it gives
/// pages exactly where loading gives a document, of which it gives them.
pub proof fn lemma_extraction_follows_loading<
    R: Fn(&String) -> Result<Vec<u8>, std::io::Error>,
    C: Fn(&Pdf, usize) -> PageContentCollector,
>(
    input: PdfInput,
    target_pages: Option<&[u32]>,
    max_pages: nat,
    password: Option<&str>,
    read: R,
    collect: C,
    e: LiteParseError,
    pages: Vec<Page>,
)
    ensures
        may_extract(input, target_pages, max_pages as int, password, read, collect, Err(e))
            == may_load(input, password, read, Err(e)),
        may_extract(input, target_pages, max_pages as int, password, read, collect, Ok(pages)) == (
        exists|document: Pdf|
            #![trigger may_load(input, password, read, Ok(document))]
            may_load(input, password, read, Ok(document)) && may_give(
                &document,
                target_pages,
                max_pages as int,
                collect,
                pages@,
            )),
{
}

/// Whether an input loads with the same contents every time.
pub open spec fn steady<
    R: Fn(&String) -> Result<Vec<u8>, std::io::Error>,
    C: Fn(&Pdf, usize) -> PageContentCollector,
>(input: PdfInput, password: Option<&str>, read: R, collect: C) -> bool {
    forall|a: Pdf, b: Pdf|
        #[trigger] may_load(input, password, read, Ok(a)) && #[trigger] may_load(
            input,
            password,
            read,
            Ok(b),
        ) ==> alike(&a, &b, collect)
}

/// With a smaller `max_pages` an input gives the first of the pages that it gives with a larger
/// one, and with none it gives none.
pub proof fn lemma_fewer_pages_of_input<
    R: Fn(&String) -> Result<Vec<u8>, std::io::Error>,
    C: Fn(&Pdf, usize) -> PageContentCollector,
>(
    input: PdfInput,
    target_pages: Option<&[u32]>,
    max_pages: nat,
    larger: nat,
    password: Option<&str>,
    read: R,
    collect: C,
    fewer: Vec<Page>,
    more: Vec<Page>,
)
    requires
        max_pages <= larger,
        steady(input, password, read, collect),
        may_extract(input, target_pages, max_pages as int, password, read, collect, Ok(fewer)),
        may_extract(input, target_pages, larger as int, password, read, collect, Ok(more)),
    ensures
        page_views(fewer@) == page_views(more@).take(min(max_pages as int, more@.len() as int)),
        max_pages == 0 ==> fewer@.len() == 0,
{
    let a = choose|a: Pdf|
        #![trigger may_load(input, password, read, Ok(a))]
        may_load(input, password, read, Ok(a)) && may_give(
            &a,
            target_pages,
            max_pages as int,
            collect,
            fewer@,
        );
    let b = choose|b: Pdf|
        #![trigger may_load(input, password, read, Ok(b))]
        may_load(input, password, read, Ok(b)) && may_give(
            &b,
            target_pages,
            larger as int,
            collect,
            more@,
        );
    lemma_fewer_pages(&a, &b, target_pages, max_pages, larger, collect, fewer@, more@);
}

/// Two lists that ask for the same pages of an input are given the same pages.
pub proof fn lemma_pages_of_input_by_membership<
    R: Fn(&String) -> Result<Vec<u8>, std::io::Error>,
    C: Fn(&Pdf, usize) -> PageContentCollector,
>(
    input: PdfInput,
    s: Option<&[u32]>,
    t: Option<&[u32]>,
    max_pages: nat,
    password: Option<&str>,
    read: R,
    collect: C,
    pages: Vec<Page>,
    others: Vec<Page>,
)
    requires
        forall|document: Pdf, page_number: int|
            #![trigger may_load(input, password, read, Ok(document)), wanted(page_number, s)]
            may_load(input, password, read, Ok(document)) && 1 <= page_number <= page_sizes(
                document,
            ).len() ==> wanted(page_number, s) == wanted(page_number, t),
        steady(input, password, read, collect),
        may_extract(input, s, max_pages as int, password, read, collect, Ok(pages)),
        may_extract(input, t, max_pages as int, password, read, collect, Ok(others)),
    ensures
        page_views(pages@) == page_views(others@),
{
    let a = choose|a: Pdf|
        #![trigger may_load(input, password, read, Ok(a))]
        may_load(input, password, read, Ok(a)) && may_give(&a, s, max_pages as int, collect, pages@);
    let b = choose|b: Pdf|
        #![trigger may_load(input, password, read, Ok(b))]
        may_load(input, password, read, Ok(b)) && may_give(
            &b,
            t,
            max_pages as int,
            collect,
            others@,
        );
    lemma_pages_by_membership(&a, &b, s, t, max_pages, collect, pages@, others@);
}

/// A number in decimal.
pub open spec fn decimal(n: nat) -> Seq<char>
    decreases n,
{
    let digit = (n % 10 + '0' as int) as char;
    if n < 10 {
        seq![digit]
    } else {
        decimal(n / 10).push(digit)
    }
}

fn push_decimal(s: &mut String, n: usize)
    ensures
        final(s)@ == old(s)@ + decimal(n as nat),
    decreases n,
{
    if n >= 10 {
        push_decimal(s, n / 10);
    }
    s.push(((n % 10) as u8 + 48) as char);
    assert(s@ =~= old(s)@ + decimal(n as nat));
}

/// Whether `e` reports a page that the document does not have.
pub open spec fn reports_missing_page(e: LiteParseError, page_number: nat) -> bool {
    e matches LiteParseError::Other(text) && text@ == "page "@ + decimal(page_number)
        + " out of range"@
}

fn missing_page(page_number: usize) -> (e: LiteParseError)
    ensures
        reports_missing_page(e, page_number as nat),
{
    let mut text: String = "page ".to_owned();
    push_decimal(&mut text, page_number);
    let text: String = text.concat(" out of range");
    LiteParseError::Other(text)
}

/// The bounding boxes of the images on a page that are at least `min_size_pt` wide and high and
/// do not cover more than the share `max_page_coverage` of the page in both directions. What is
/// drawn on the page comes from `collect`.
pub fn image_bounds_for_page<C: Fn(&Pdf, usize) -> PageContentCollector>(
    document: &Document,
    page_index: usize,
    min_size_pt: Scalar,
    max_page_coverage: Scalar,
    collect: C,
) -> (r: Result<Vec<ImageBounds>, LiteParseError>)
    requires
        page_index < usize::MAX,
        page_index < page_sizes(*document).len() ==> call_requires(
            collect,
            (document, page_index),
        ),
    ensures
        page_index >= page_sizes(*document).len() ==> (r matches Err(e) && reports_missing_page(
            e,
            (page_index + 1) as nat,
        )),
        page_index < page_sizes(*document).len() ==> (r matches Ok(images) && exists|
            content: PageContentCollector,
        |
            #![trigger call_ensures(collect, (document, page_index), content)]
            call_ensures(collect, (document, page_index), content) && images@ == relevant_images(
                content@.image_bounds,
                Scalar { bits: page_sizes(*document)[page_index as int].0 },
                Scalar { bits: page_sizes(*document)[page_index as int].1 },
                min_size_pt,
                max_page_coverage,
            )),
        r matches Ok(images) ==> forall|k: int|
            #![trigger images@[k]]
            0 <= k < images@.len() ==> {
                let (image, size) = (images@[k], page_sizes(*document)[page_index as int]);
                let (width, height) = (Scalar { bits: size.0 }, Scalar { bits: size.1 });
                &&& min_size_pt.at_most(image.width) && min_size_pt.at_most(image.height)
                &&& !width.product(height).at_most(signed(false, 0)) ==> !(width.product(
                    max_page_coverage,
                ).less(image.width) && height.product(max_page_coverage).less(image.height))
            },
{
    if page_index >= page_count(document) {
        return Err(missing_page(page_index + 1));
    }
    let size: (u32, u32) = render_dimensions(document, page_index);
    let content: PageContentCollector = collect(document, page_index);
    let images: Vec<ImageBounds> = filter_images(
        content.image_bounds.as_slice(),
        Scalar::from_bits(size.0),
        Scalar::from_bits(size.1),
        min_size_pt,
        max_page_coverage,
    );
    assert(call_ensures(collect, (document, page_index), content));
    proof {
        lemma_relevant_images(
            content.image_bounds@,
            Scalar { bits: size.0 },
            Scalar { bits: size.1 },
            min_size_pt,
            max_page_coverage,
        );
    }
    Ok(images)
}

/// The value of a numeral.
pub open spec fn numeral(digits: Seq<char>) -> int
    decreases digits.len(),
{
    if digits.len() == 0 {
        0
    } else {
        10 * numeral(digits.drop_last()) + (digits.last() as int - '0' as int)
    }
}

/// A number is written in digits, without a leading zero unless it is zero, and reads as itself.
pub proof fn lemma_decimal(n: nat)
    ensures
        numeral(decimal(n)) == n,
        decimal(n).len() > 0,
        decimal(n)[0] == '0' ==> n == 0,
        forall|i: int| 0 <= i < decimal(n).len() ==> '0' <= #[trigger] decimal(n)[i] <= '9',
    decreases n,
{
    let s = decimal(n);
    if n >= 10 {
        lemma_decimal(n / 10);
        assert(s.drop_last() =~= decimal(n / 10));
        assert(s[0] == decimal(n / 10)[0]);
        assert forall|i: int| 0 <= i < s.len() implies '0' <= #[trigger] s[i] <= '9' by {
            if i < s.len() - 1 {
                assert(s[i] == decimal(n / 10)[i]);
            }
        }
    } else {
        assert(s.drop_last() =~= Seq::<char>::empty());
        assert(numeral(Seq::<char>::empty()) == 0);
    }
    assert(s.last() as int == n % 10 + '0' as int);
}

/// The pages that a document gives are its own: each has a number from one to the number of pages,
/// in ascending order, that is in the list where there is one; its size is that of the page of the
/// document with that number, and its text that of what `collect` finds there.
pub proof fn lemma_pages_are_the_documents<C: Fn(&Pdf, usize) -> PageContentCollector>(
    document: &Pdf,
    target_pages: Option<&[u32]>,
    max_pages: nat,
    collect: C,
    pages: Seq<Page>,
)
    requires
        may_give(document, target_pages, max_pages as int, collect, pages),
    ensures
        pages.len() <= max_pages,
        forall|k: int|
            #![trigger pages[k]]
            0 <= k < pages.len() ==> {
                let page = pages[k];
                let number = page.page_number as int;
                &&& 1 <= number <= page_sizes(*document).len()
                &&& target_pages matches Some(targets) ==> exists|i: int|
                    0 <= i < targets@.len() && #[trigger] targets@[i] == number
                &&& page.page_width.bits == page_sizes(*document)[number - 1].0
                &&& page.page_height.bits == page_sizes(*document)[number - 1].1
                &&& exists|content: PageContentCollector|
                    #![trigger call_ensures(collect, (document, (number - 1) as usize), content)]
                    call_ensures(collect, (document, (number - 1) as usize), content)
                        && page@.text_items == page_items(content@.glyphs)
            },
        forall|j: int, k: int|
            0 <= j < k < pages.len() ==> (#[trigger] pages[j]).page_number < (
            #[trigger] pages[k]).page_number,
{
    let n = page_sizes(*document).len() as int;
    let indices = selected(n, target_pages, max_pages as int);
    lemma_selected(n, target_pages, max_pages as int);
    assert forall|k: int| 0 <= k < pages.len() implies (#[trigger] pages[k]).page_number
        == indices[k] + 1 by {
        assert(extracted(document, indices[k], collect, pages[k]@));
        assert(0 <= indices[k] < n);
    }
    assert forall|k: int|
        #![trigger pages[k]]
        0 <= k < pages.len() implies {
        let page = pages[k];
        let number = page.page_number as int;
        &&& 1 <= number <= n
        &&& target_pages matches Some(targets) ==> exists|i: int|
            0 <= i < targets@.len() && #[trigger] targets@[i] == number
        &&& page.page_width.bits == page_sizes(*document)[number - 1].0
        &&& page.page_height.bits == page_sizes(*document)[number - 1].1
        &&& exists|content: PageContentCollector|
            #![trigger call_ensures(collect, (document, (number - 1) as usize), content)]
            call_ensures(collect, (document, (number - 1) as usize), content)
                && page@.text_items == page_items(content@.glyphs)
    } by {
        let i = indices[k];
        assert(0 <= i < n && wanted(i + 1, target_pages));
        assert(extracted(document, i, collect, pages[k]@));
        let content = choose|content: PageContentCollector|
            #![trigger call_ensures(collect, (document, i as usize), content)]
            call_ensures(collect, (document, i as usize), content) && pages[k]@ == page_view(
                i + 1,
                page_sizes(*document)[i],
                content@,
            );
        assert(call_ensures(collect, (document, i as usize), content));
        assert(pages[k].page_number == i + 1);
    }
}

/// Loading bytes is opening those bytes with the password as it is given: a document has them as
/// its own, and an error names a failure to open them.
pub proof fn lemma_loading_is_opening<R: Fn(&String) -> Result<Vec<u8>, std::io::Error>>(
    data: Vec<u8>,
    password: &str,
    read: R,
    loaded: Result<Pdf, LiteParseError>,
)
    requires
        may_load(PdfInput::Bytes(data), Some(password), read, loaded),
    ensures
        match loaded {
            Ok(document) => document_data(document) == data@ && may_open(
                data@,
                password@,
                Ok(page_sizes(document)),
            ),
            Err(e) => e matches LiteParseError::Pdf(text) && exists|failure: LoadFailure|
                text@ == #[trigger] failure_text(failure) && may_open(
                    data@,
                    password@,
                    Err(failure),
                ),
        },
{
    let held = PdfInput::Bytes(data);
    assert(held->Bytes_0 == data);
}

} // verus!
