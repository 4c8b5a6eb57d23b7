//! The image extractor: from the `img` elements of a gallery page and the
//! page's URL, the ordered sequence of absolute image URLs and candidate
//! file names. A lightbox `onclick` attribute of the form
//! `Previewurl('...')` overrides the `src` attribute; the candidate name is
//! the `alt` attribute when it looks like an image file name, otherwise the
//! final path segment of the chosen source reference.

use vstd::prelude::*;
use vstd::string::*;
use crate::data::{ImageInfo, ImageInfoView};
use crate::text::{contains_char, ends_with_str, last_segment, last_segment_of, starts_with_str};

verus! {

/// The attributes of one `img` element that the extractor reads.
#[derive(Debug, Clone, PartialEq, Eq)]
pub struct ImgElement {
    pub src: Option<String>,
    pub onclick: Option<String>,
    pub alt: Option<String>,
}

impl View for ImgElement {
    type V = (Option<Seq<char>>, Option<Seq<char>>, Option<Seq<char>>);

    open spec fn view(&self) -> (Option<Seq<char>>, Option<Seq<char>>, Option<Seq<char>>) {
        (self.src.deep_view(), self.onclick.deep_view(), self.alt.deep_view())
    }
}

impl DeepView for ImgElement {
    type V = (Option<Seq<char>>, Option<Seq<char>>, Option<Seq<char>>);

    open spec fn deep_view(&self) -> (Option<Seq<char>>, Option<Seq<char>>, Option<Seq<char>>) {
        self.view()
    }
}

/// The `src`, `onclick` and `alt` attributes of each `img` element of the
/// document, in document order: named but not restated, the parse is the
/// outside crate's and depends on the document text alone.
pub uninterp spec fn imgs_of(html: Seq<char>) -> Seq<
    (Option<Seq<char>>, Option<Seq<char>>, Option<Seq<char>>),
>;

/// Relies on scraper::Html::parse_document and scraper::Selector::parse:
/// the `img` elements of the parsed document in document order, each read
/// through scraper::node::Element::attr, a function of the text alone.
#[verifier::external_body]
fn parse_img_elements(html: &str) -> (r: Vec<ImgElement>)
    ensures
        r.deep_view() == imgs_of(html@),
{
    let doc = scraper::Html::parse_document(html);
    let sel = scraper::Selector::parse("img").unwrap();
    doc.select(&sel).map(
        |e| ImgElement {
            src: e.value().attr("src").map(|v| v.to_string()),
            onclick: e.value().attr("onclick").map(|v| v.to_string()),
            alt: e.value().attr("alt").map(|v| v.to_string()),
        },
    ).collect()
}

/// RFC 3986 resolution of the reference `rel` against the page URL `base`,
/// as the normalized absolute URL string; `None` when `base` does not parse
/// or the join is impossible. Named but not restated: the resolution is the
/// outside crate's and depends on the two strings alone.
pub uninterp spec fn url_join(base: Seq<char>, rel: Seq<char>) -> Option<Seq<char>>;

/// Relies on url::Url::parse and url::Url::join: the reference resolved
/// against the base URL, rendered with url::Url::as_str.
#[verifier::external_body]
fn join_url(base: &str, rel: &str) -> (r: Option<String>)
    ensures
        r.deep_view() == url_join(base@, rel@),
{
    match url::Url::parse(base) {
        Ok(b) => match b.join(rel) {
            Ok(u) => Some(u.as_str().to_string()),
            Err(_) => None,
        },
        Err(_) => None,
    }
}

/// Whether the `onclick` attribute matches the lightbox pattern: a
/// `Previewurl` call with one quoted argument that spans no line break.
pub open spec fn preview_matches(oc: Seq<char>) -> bool {
    &&& oc.len() >= "Previewurl('"@.len() + "')"@.len()
    &&& "Previewurl('"@.is_prefix_of(oc)
    &&& "')"@.is_suffix_of(oc)
    &&& !preview_argument(oc).contains('\n')
}

/// The quoted argument of a matching lightbox pattern.
pub open spec fn preview_argument(oc: Seq<char>) -> Seq<char> {
    oc.subrange("Previewurl('"@.len() as int, oc.len() - "')"@.len())
}

/// The source reference chosen for an element: the lightbox argument when
/// the `onclick` attribute matches the pattern, otherwise the raw `src`.
pub open spec fn chosen_src(src: Seq<char>, onclick: Option<Seq<char>>) -> Seq<char> {
    match onclick {
        Some(oc) => if preview_matches(oc) {
            preview_argument(oc)
        } else {
            src
        },
        None => src,
    }
}

/// The source reference of one element, per [`chosen_src`].
pub fn get_img_src(src: &str, onclick: Option<&str>) -> (r: String)
    ensures
        r@ == chosen_src(src@, match onclick {
            Some(oc) => Some(oc@),
            None => None,
        }),
{
    match onclick {
        None => src.to_owned(),
        Some(oc) => {
            let pre = "Previewurl('";
            let suf = "')";
            proof {
                reveal_strlit("Previewurl('");
                reveal_strlit("')");
            }
            if starts_with_str(oc, pre) && ends_with_str(oc, suf) && oc.unicode_len() >= 14 {
                let len = oc.unicode_len();
                let arg = oc.substring_char(12, len - 2);
                if contains_char(arg, '\n') {
                    src.to_owned()
                } else {
                    arg.to_owned()
                }
            } else {
                src.to_owned()
            }
        },
    }
}

/// Whether a candidate name looks like an image file name: it ends in
/// `.jpg`, `.png` or `.jpeg`, case-sensitively, and spans no line break.
pub open spec fn is_image_name_spec(s: Seq<char>) -> bool {
    &&& !s.contains('\n')
    &&& {
        ||| ".jpg"@.is_suffix_of(s)
        ||| ".png"@.is_suffix_of(s)
        ||| ".jpeg"@.is_suffix_of(s)
    }
}

/// Whether a candidate name looks like an image file name.
pub fn is_image_name(v: &str) -> (r: bool)
    ensures
        r == is_image_name_spec(v@),
{
    !contains_char(v, '\n') && (ends_with_str(v, ".jpg") || ends_with_str(v, ".png")
        || ends_with_str(v, ".jpeg"))
}

/// The file name for an element: the `alt` attribute when it looks like an
/// image file name, otherwise the final path segment of the chosen source.
pub open spec fn derived_name(src: Seq<char>, alt: Option<Seq<char>>) -> Seq<char> {
    match alt {
        Some(a) => if is_image_name_spec(a) {
            a
        } else {
            last_segment_of(src)
        },
        None => last_segment_of(src),
    }
}

/// The file name for one element, per [`derived_name`].
pub fn derive_name(src: &str, alt: Option<&str>) -> (r: String)
    ensures
        r@ == derived_name(src@, match alt {
            Some(a) => Some(a@),
            None => None,
        }),
{
    match alt {
        Some(a) => if is_image_name(a) {
            a.to_owned()
        } else {
            last_segment(src)
        },
        None => last_segment(src),
    }
}

/// Why a page's image set could not be extracted.
#[derive(Debug, Clone, Copy, PartialEq, Eq, Structural)]
pub enum ExtractError {
    /// An `img` element has no `src` attribute.
    MissingSrc,
    /// The page URL does not parse, or an image reference cannot be
    /// resolved against it.
    UrlError,
}

/// The extraction of a whole element sequence: in document order, the
/// first element without a `src`, or whose chosen source cannot be
/// resolved against the page URL, fails the page; otherwise each element
/// yields a record with its derived name and absolute URL.
pub open spec fn extraction(
    es: Seq<(Option<Seq<char>>, Option<Seq<char>>, Option<Seq<char>>)>,
    page: Seq<char>,
) -> Result<Seq<ImageInfoView>, ExtractError>
    decreases es.len(),
{
    if es.len() == 0 {
        Ok(Seq::empty())
    } else {
        let e = es.first();
        match e.0 {
            None => Err(ExtractError::MissingSrc),
            Some(src) => {
                let chosen = chosen_src(src, e.1);
                match url_join(page, chosen) {
                    None => Err(ExtractError::UrlError),
                    Some(abs) => match extraction(es.drop_first(), page) {
                        Err(err) => Err(err),
                        Ok(rest) => Ok(
                            seq![
                                ImageInfoView {
                                    name: Some(derived_name(chosen, e.2)),
                                    url: abs,
                                },
                            ] + rest,
                        ),
                    },
                }
            },
        }
    }
}

/// What [`extraction`] yields once the elements before position `k` have
/// produced the records `done`.
pub open spec fn extraction_from(
    es: Seq<(Option<Seq<char>>, Option<Seq<char>>, Option<Seq<char>>)>,
    page: Seq<char>,
    k: int,
    done: Seq<ImageInfoView>,
) -> Result<Seq<ImageInfoView>, ExtractError> {
    match extraction(es.subrange(k, es.len() as int), page) {
        Err(e) => Err(e),
        Ok(rest) => Ok(done + rest),
    }
}

/// Extract the image records of a page from its `img` elements and its
/// URL: each element's chosen source resolved to an absolute URL, paired
/// with its derived file name, in document order.
pub fn extract_images(elements: &Vec<ImgElement>, page_url: &str) -> (r: Result<
    Vec<ImageInfo>,
    ExtractError,
>)
    ensures
        match r {
            Ok(infos) => extraction(elements.deep_view(), page_url@) == Ok::<
                Seq<ImageInfoView>,
                ExtractError,
            >(infos.deep_view()),
            Err(e) => extraction(elements.deep_view(), page_url@) == Err::<
                Seq<ImageInfoView>,
                ExtractError,
            >(e),
        },
{
    let ghost es = elements.deep_view();
    let n = elements.len();
    let mut infos: Vec<ImageInfo> = Vec::new();
    let mut k: usize = 0;
    proof {
        assert(es.subrange(0, n as int) =~= es);
        assert(infos.deep_view() =~= Seq::<ImageInfoView>::empty());
        if extraction(es, page_url@) is Ok {
            let rest = extraction(es, page_url@)->Ok_0;
            assert(infos.deep_view() + rest =~= rest);
        }
    }
    while k < n
        invariant
            k <= n,
            n == elements@.len(),
            es == elements.deep_view(),
            extraction(es, page_url@) == extraction_from(es, page_url@, k as int, infos.deep_view()),
        decreases n - k,
    {
        proof {
            assert(es[k as int] == elements@[k as int].deep_view());
            assert(es.subrange(k as int, n as int).first() == es[k as int]);
            assert(es.subrange(k as int, n as int).drop_first() =~= es.subrange(
                k as int + 1,
                n as int,
            ));
        }
        let element = &elements[k];
        let src: &String = match &element.src {
            Some(s) => s,
            None => {
                return Err(ExtractError::MissingSrc);
            },
        };
        let onclick: Option<&str> = match &element.onclick {
            Some(s) => Some(s.as_str()),
            None => None,
        };
        let alt: Option<&str> = match &element.alt {
            Some(s) => Some(s.as_str()),
            None => None,
        };
        let chosen = get_img_src(src.as_str(), onclick);
        let abs: String = match join_url(page_url, chosen.as_str()) {
            Some(u) => u,
            None => {
                return Err(ExtractError::UrlError);
            },
        };
        let name = derive_name(chosen.as_str(), alt);
        let ghost before = infos.deep_view();
        let info = ImageInfo { name: Some(name), url: abs };
        let ghost infov = info@;
        infos.push(info);
        proof {
            assert(infos.deep_view() =~= before.push(infov));
            assert(before.push(infov) =~= before + seq![infov]);
            if extraction(es.subrange(k as int + 1, n as int), page_url@) is Ok {
                let rest = extraction(es.subrange(k as int + 1, n as int), page_url@)->Ok_0;
                assert((before + seq![infov]) + rest =~= before + (seq![infov] + rest));
            }
        }
        k = k + 1;
    }
    proof {
        assert(es.subrange(n as int, n as int) =~= Seq::<
            (Option<Seq<char>>, Option<Seq<char>>, Option<Seq<char>>),
        >::empty());
        assert(infos.deep_view() + Seq::<ImageInfoView>::empty() =~= infos.deep_view());
    }
    Ok(infos)
}

/// Extract the image records straight from the page text: the `img`
/// elements the parser yields, run through [`extract_images`].
pub fn extract_from_page(html: &str, page_url: &str) -> (r: Result<Vec<ImageInfo>, ExtractError>)
    ensures
        match r {
            Ok(infos) => extraction(imgs_of(html@), page_url@) == Ok::<
                Seq<ImageInfoView>,
                ExtractError,
            >(infos.deep_view()),
            Err(e) => extraction(imgs_of(html@), page_url@) == Err::<
                Seq<ImageInfoView>,
                ExtractError,
            >(e),
        },
{
    let elements = parse_img_elements(html);
    extract_images(&elements, page_url)
}

/// The absolute URLs of a record sequence, in order.
pub open spec fn urls_of(infos: Seq<ImageInfoView>) -> Seq<Seq<char>> {
    infos.map_values(|v: ImageInfoView| v.url)
}

/// Collect the absolute URLs of the extracted records, the input of the
/// fingerprint.
pub fn image_urls(infos: &Vec<ImageInfo>) -> (r: Vec<String>)
    ensures
        r.deep_view() == urls_of(infos.deep_view()),
{
    let n = infos.len();
    let mut urls: Vec<String> = Vec::new();
    let mut k: usize = 0;
    while k < n
        invariant
            k <= n,
            n == infos@.len(),
            urls.deep_view() =~= urls_of(infos.deep_view()).subrange(0, k as int),
        decreases n - k,
    {
        proof {
            assert(infos.deep_view()[k as int] == infos@[k as int].deep_view());
        }
        let ghost before = urls.deep_view();
        urls.push(infos[k].url.clone());
        proof {
            assert(urls.deep_view() =~= before.push(infos@[k as int].url@));
            assert(urls.deep_view() =~= urls_of(infos.deep_view()).subrange(0, k as int + 1));
        }
        k = k + 1;
    }
    proof {
        assert(urls_of(infos.deep_view()).subrange(0, n as int) =~= urls_of(infos.deep_view()));
    }
    urls
}

} // verus!

