//! Run orchestration decisions for the `download` and `fix` paths: which
//! pages need transfers, what each transfer writes where, and when the
//! database gains a fingerprint. Transfers themselves are I/O and live
//! outside the library; every decision about them is taken here.

use vstd::prelude::*;
use crate::data::{Data, ImageInfo, ImageInfoView};
use crate::digest::{fingerprint_hex, fingerprint_of, hex_of};
use crate::extract::{extract_from_page, extraction, image_urls, imgs_of, urls_of, ExtractError};
use crate::text::{last_segment, last_segment_of};

verus! {

/// One planned transfer: fetch `url`, write the body to the file `name`
/// inside the unit's fingerprint directory.
#[derive(Debug, Clone, PartialEq, Eq)]
pub struct TransferItem {
    pub url: String,
    pub name: String,
}

/// The mathematical value of a [`TransferItem`].
pub ghost struct TransferItemView {
    pub url: Seq<char>,
    pub name: Seq<char>,
}

impl View for TransferItem {
    type V = TransferItemView;

    open spec fn view(&self) -> TransferItemView {
        TransferItemView { url: self.url@, name: self.name@ }
    }
}

impl DeepView for TransferItem {
    type V = TransferItemView;

    open spec fn deep_view(&self) -> TransferItemView {
        self.view()
    }
}

/// The local file name for a record: its stored name, or the final path
/// segment of its URL when no name was recorded.
pub open spec fn file_name_of(v: ImageInfoView) -> Seq<char> {
    match v.name {
        Some(n) => n,
        None => last_segment_of(v.url),
    }
}

/// The transfers a record sequence calls for, in order: each record's URL
/// with its local file name.
pub open spec fn transfer_items_of(infos: Seq<ImageInfoView>) -> Seq<TransferItemView> {
    infos.map_values(|v: ImageInfoView| TransferItemView { url: v.url, name: file_name_of(v) })
}

/// Plan the transfers for a record sequence.
pub fn transfer_items(infos: &Vec<ImageInfo>) -> (r: Vec<TransferItem>)
    ensures
        r.deep_view() == transfer_items_of(infos.deep_view()),
{
    let n = infos.len();
    let mut items: Vec<TransferItem> = Vec::new();
    let mut k: usize = 0;
    while k < n
        invariant
            k <= n,
            n == infos@.len(),
            items.deep_view() =~= transfer_items_of(infos.deep_view()).subrange(0, k as int),
        decreases n - k,
    {
        proof {
            assert(infos.deep_view()[k as int] == infos@[k as int].deep_view());
        }
        let info = &infos[k];
        let name = match &info.name {
            Some(n) => n.clone(),
            None => last_segment(info.url.as_str()),
        };
        let ghost before = items.deep_view();
        let item = TransferItem { url: info.url.clone(), name };
        let ghost itemv = item@;
        items.push(item);
        proof {
            assert(items.deep_view() =~= before.push(itemv));
            assert(items.deep_view() =~= transfer_items_of(infos.deep_view()).subrange(
                0,
                k as int + 1,
            ));
        }
        k = k + 1;
    }
    proof {
        assert(transfer_items_of(infos.deep_view()).subrange(0, n as int) =~= transfer_items_of(
            infos.deep_view(),
        ));
    }
    items
}

/// The compute core of one `download` page unit: the image records
/// extracted from the page text, and the fingerprint key of their URL
/// set. Two pages with the same image set get the same key, whatever
/// order their elements stand in.
pub fn page_unit(html: &str, page_url: &str) -> (r: Result<(String, Vec<ImageInfo>), ExtractError>)
    ensures
        match r {
            Ok(unit) => extraction(imgs_of(html@), page_url@) == Ok::<
                Seq<ImageInfoView>,
                ExtractError,
            >(unit.1.deep_view()) && unit.0@ == hex_of(
                fingerprint_of(urls_of(unit.1.deep_view())),
            ),
            Err(e) => extraction(imgs_of(html@), page_url@) == Err::<
                Seq<ImageInfoView>,
                ExtractError,
            >(e),
        },
{
    match extract_from_page(html, page_url) {
        Err(e) => Err(e),
        Ok(infos) => {
            let urls = image_urls(&infos);
            let fp = fingerprint_hex(&urls);
            Ok((fp, infos))
        },
    }
}

/// Close a page unit of the `download` path. The fingerprint is recorded,
/// and the run marked changed, exactly when every transfer of the page
/// succeeded and the fingerprint was new; a page with any failed transfer
/// never reaches the database, and a page already present leaves it as it
/// was.
pub fn record_page(
    data: &mut Data,
    fingerprint: String,
    infos: Vec<ImageInfo>,
    transfers_ok: bool,
) -> (changed: bool)
    requires
        old(data).wf(),
    ensures
        final(data).wf(),
        changed == (transfers_ok && !old(data)@.contains_key(fingerprint@)),
        changed ==> final(data)@ == old(data)@.insert(fingerprint@, infos.deep_view())
            && final(data).entries() == old(data).entries().push(
            (fingerprint@, infos.deep_view()),
        ),
        !changed ==> final(data)@ == old(data)@ && final(data).entries() == old(data).entries(),
{
    if !transfers_ok {
        return false;
    }
    if data.contains_key(fingerprint.as_str()) {
        return false;
    }
    data.insert(fingerprint, infos);
    true
}

/// Law: `download` is idempotent. Once a page's fingerprint is recorded,
/// it is present in the mapping with the records that were stored, so a
/// second run of the same page sees it, reports the page unchanged,
/// plans zero transfers and does not mark the run changed.
pub proof fn lemma_download_idempotent(
    m: Map<Seq<char>, Seq<ImageInfoView>>,
    fp: Seq<char>,
    v: Seq<ImageInfoView>,
)
    ensures
        m.insert(fp, v).contains_key(fp),
        m.insert(fp, v)[fp] == v,
{
}

/// Decide one entry of the `fix` path. A fingerprint whose directory
/// exists is skipped with no transfers, however incomplete the directory;
/// one whose directory is missing has every stored record re-downloaded
/// under its recorded file name.
pub fn fix_entry(dir_exists: bool, infos: &Vec<ImageInfo>) -> (r: Option<Vec<TransferItem>>)
    ensures
        dir_exists <==> r is None,
        r matches Some(items) ==> items.deep_view() == transfer_items_of(infos.deep_view()),
{
    if dir_exists {
        None
    } else {
        Some(transfer_items(infos))
    }
}

} // verus!
