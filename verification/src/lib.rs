//! Static files, compressed once and served from one blob.
//!
//! The build side ([`worker`]) stores every file of a tree in one blob, plain
//! and, where it pays, compressed with gzip and brotli, and keeps a manifest
//! that says where each variant lies. The serve side, in this module, loads
//! the blob with its manifest and answers a request path with the best
//! variant that the client accepts, without copying it.

use vstd::prelude::*;
use vstd::string::StringSliceAdditionalSpecFns;
use vstd::utf8::encode_utf8;
use crate::artifact::LoadError;
use crate::bytes::{contains, find_in, trim, trimmed};
use crate::index::{index_entries, index_get, index_insert, index_new, PathIndex};
use crate::worker::{ItemView, VariantView};

pub mod artifact;
pub mod bytes;
pub mod codec;
pub mod index;
pub mod laws;
pub mod paths;
pub mod queue;
pub mod sorting;
pub mod worker;

verus! {

/// The byte that separates the parts of a path.
pub const SLASH: u8 = 0x2f;

/// One variant as it is served: its validator token and its bytes.
pub struct VariantContent {
    pub etag: Seq<char>,
    pub content: Seq<u8>,
}

/// One file as it is served: its path and the variants stored for it.
pub struct ItemContent {
    pub path: Seq<char>,
    pub plain: VariantContent,
    pub gzip: Option<VariantContent>,
    pub brotli: Option<VariantContent>,
}

/// What a [`Match`] holds.
pub struct MatchView {
    pub path: Seq<char>,
    pub content: Seq<u8>,
    pub etag: Seq<char>,
    pub encoding: Option<Seq<char>>,
}

/// The variant that a record of the manifest addresses in `blob`.
pub open spec fn variant_in(variant: VariantView, blob: Seq<u8>) -> VariantContent {
    VariantContent { etag: variant.etag, content: variant.content(blob) }
}

/// The optional variant that a record of the manifest addresses in `blob`.
pub open spec fn optional_variant_in(variant: Option<VariantView>, blob: Seq<u8>) -> Option<
    VariantContent,
> {
    match variant {
        Some(v) => Some(variant_in(v, blob)),
        None => None,
    }
}

/// The file that an item of the manifest addresses in `blob`.
pub open spec fn item_in(item: ItemView, blob: Seq<u8>) -> ItemContent {
    ItemContent {
        path: item.path,
        plain: variant_in(item.plain, blob),
        gzip: optional_variant_in(item.gzip, blob),
        brotli: optional_variant_in(item.brotli, blob),
    }
}

/// The files that the items of a manifest address in `blob`.
pub open spec fn items_in(items: Seq<ItemView>, blob: Seq<u8>) -> Seq<ItemContent> {
    items.map_values(|item: ItemView| item_in(item, blob))
}

/// The table that finds each file under the bytes of its path. Of two files
/// with one path the later one stands in the table.
pub open spec fn table_of(items: Seq<ItemContent>) -> Map<Seq<u8>, ItemContent>
    decreases items.len(),
{
    if items.len() == 0 {
        Map::empty()
    } else {
        table_of(items.drop_last()).insert(encode_utf8(items.last().path), items.last())
    }
}

/// The label under which the brotli variant is served.
pub open spec fn brotli_label() -> Seq<char> {
    "br"@
}

/// The label under which the gzip variant is served.
pub open spec fn gzip_label() -> Seq<char> {
    "gzip"@
}

/// Whether the client accepts the encoding with the given label: the label
/// stands somewhere in the header value.
pub open spec fn accepts(accept_encoding: Seq<char>, label: Seq<char>) -> bool {
    contains(encode_utf8(accept_encoding), encode_utf8(label))
}

/// The encoding and the variant served for `item` to a client that sent
/// `accept_encoding`: brotli if there is such a variant and the client takes
/// it, else gzip on the same terms, else the plain content.
pub open spec fn negotiated(accept_encoding: Seq<char>, item: ItemContent) -> (
    Option<Seq<char>>,
    VariantContent,
) {
    if item.brotli is Some && accepts(accept_encoding, brotli_label()) {
        (Some(brotli_label()), item.brotli->0)
    } else if item.gzip is Some && accepts(accept_encoding, gzip_label()) {
        (Some(gzip_label()), item.gzip->0)
    } else {
        (None, item.plain)
    }
}

/// The match that serves `item` to a client that sent `accept_encoding`.
pub open spec fn matched(accept_encoding: Seq<char>, item: ItemContent) -> MatchView {
    let (encoding, variant) = negotiated(accept_encoding, item);
    MatchView { path: item.path, content: variant.content, etag: variant.etag, encoding }
}

/// The request path without the slashes around it.
pub open spec fn requested(path: Seq<char>) -> Seq<u8> {
    trim(encode_utf8(path), SLASH)
}

/// The path of the index page of the directory that a request names: the
/// root's own for an empty request.
pub open spec fn index_page(request: Seq<u8>) -> Seq<u8> {
    if request.len() == 0 {
        encode_utf8("index.html"@)
    } else {
        request + encode_utf8("/index.html"@)
    }
}

/// The path of the page that a request without extension names.
pub open spec fn html_page(request: Seq<u8>) -> Seq<u8> {
    request + encode_utf8(".html"@)
}

/// The key under which a request is served from a table with the given keys:
/// the request itself, else its index page, else its page, whichever is the
/// first to be there.
pub open spec fn resolved(keys: Set<Seq<u8>>, path: Seq<char>) -> Option<Seq<u8>> {
    let request = requested(path);
    if keys.contains(request) {
        Some(request)
    } else if keys.contains(index_page(request)) {
        Some(index_page(request))
    } else if keys.contains(html_page(request)) {
        Some(html_page(request))
    } else {
        None
    }
}

/// Extract supported encoding and corresponding tag
pub fn match_encoding_tag<'a>(accept_encoding: &str, item: &Item<'a>) -> (r: (
    Option<&'static str>,
    (&'a str, &'a [u8]),
))
    ensures
        (label_view(r.0), variant_content(r.1)) == negotiated(accept_encoding@, item@),
{
    let accept = accept_encoding.as_bytes();
    if let Some(it) = &item.brotli {
        if find_in(accept, "br".as_bytes()) {
            return (Some("br"), *it);
        }
    }
    if let Some(it) = &item.gzip {
        if find_in(accept, "gzip".as_bytes()) {
            return (Some("gzip"), *it);
        }
    }
    (None, item.plain)
}

/// The text of an optional label.
pub open spec fn label_view(label: Option<&str>) -> Option<Seq<char>> {
    match label {
        Some(s) => Some(s@),
        None => None,
    }
}

/// The view of a token with the bytes it stands for.
pub open spec fn variant_content(variant: (&str, &[u8])) -> VariantContent {
    VariantContent { etag: variant.0@, content: variant.1@ }
}

/// The view of an optional token with the bytes it stands for.
pub open spec fn optional_variant_content(variant: Option<(&str, &[u8])>) -> Option<
    VariantContent,
> {
    match variant {
        Some(v) => Some(variant_content(v)),
        None => None,
    }
}

/// The view of a token with its region.
pub open spec fn report_variant(variant: (&str, (u64, u32))) -> VariantView {
    VariantView { etag: variant.0@, start: variant.1.0 as nat, len: variant.1.1 as nat }
}

/// The view of an optional token with its region.
pub open spec fn optional_report_variant(variant: Option<(&str, (u64, u32))>) -> Option<
    VariantView,
> {
    match variant {
        Some(v) => Some(report_variant(v)),
        None => None,
    }
}

/// Optimized item with metadata
#[derive(Debug)]
pub struct ReportItem<'a> {
    pub path: &'a str,
    pub plain: (&'a str, (u64, u32)),
    pub gzip: Option<(&'a str, (u64, u32))>,
    pub brotli: Option<(&'a str, (u64, u32))>,
}

impl<'a> View for ReportItem<'a> {
    type V = ItemView;

    open spec fn view(&self) -> ItemView {
        ItemView {
            path: self.path@,
            plain: report_variant(self.plain),
            gzip: optional_report_variant(self.gzip),
            brotli: optional_report_variant(self.brotli),
        }
    }
}

/// The views of the items of a manifest.
pub open spec fn report_views(items: Seq<ReportItem<'_>>) -> Seq<ItemView> {
    items.map_values(|item: ReportItem<'_>| item@)
}

/// Whether a region ends within `len` bytes.
fn region_within(region: (u64, u32), len: usize) -> (r: bool)
    ensures
        r == (region.0 + region.1 <= len),
{
    let (start, size) = region;
    start <= len as u64 && size as u64 <= len as u64 - start
}

impl<'a> ReportItem<'a> {
    /// Whether every region of the item ends within a blob of `blob_len`
    /// bytes.
    pub fn within(&self, blob_len: usize) -> (r: bool)
        ensures
            r == self@.within(blob_len as nat),
    {
        region_within(self.plain.1, blob_len) && (match self.gzip {
            Some(v) => region_within(v.1, blob_len),
            None => true,
        }) && (match self.brotli {
            Some(v) => region_within(v.1, blob_len),
            None => true,
        })
    }
}

/// Optimized item
pub struct Item<'a> {
    pub path: &'a str,
    pub plain: (&'a str, &'a [u8]),
    pub gzip: Option<(&'a str, &'a [u8])>,
    pub brotli: Option<(&'a str, &'a [u8])>,
}

impl<'a> View for Item<'a> {
    type V = ItemContent;

    open spec fn view(&self) -> ItemContent {
        ItemContent {
            path: self.path@,
            plain: variant_content(self.plain),
            gzip: optional_variant_content(self.gzip),
            brotli: optional_variant_content(self.brotli),
        }
    }
}

impl<'a> Item<'a> {
    /// The item whose variants are the regions of `content` that `item`
    /// names.
    pub fn from_report(item: &ReportItem<'a>, content: &'a [u8]) -> (r: Self)
        requires
            item@.within(content@.len()),
        ensures
            r@ == item_in(item@, content@),
    {
        Self {
            path: item.path,
            plain: Self::borrow(item.plain, content),
            gzip: match item.gzip {
                Some(it) => Some(Self::borrow(it, content)),
                None => None,
            },
            brotli: match item.brotli {
                Some(it) => Some(Self::borrow(it, content)),
                None => None,
            },
        }
    }

    /// A token with the region of `content` that stands beside it.
    pub fn borrow(it: (&'a str, (u64, u32)), content: &'a [u8]) -> (r: (&'a str, &'a [u8]))
        requires
            report_variant(it).within(content@.len()),
        ensures
            variant_content(r) == variant_in(report_variant(it), content@),
    {
        let (token, (start, len)) = it;
        let _total: usize = content.len();
        let from: usize = start as usize;
        let to: usize = from + len as usize;
        (token, &content[from..to])
    }
}

/// A static file match
pub struct Match<'a> {
    /// Path of the file that is served
    pub path: &'a str,
    /// Compressed content
    pub content: &'a [u8],
    /// Precomputed ETag
    pub etag: &'a str,
    /// Compression encoding
    pub encoding: Option<&'a str>,
}

impl<'a> View for Match<'a> {
    type V = MatchView;

    open spec fn view(&self) -> MatchView {
        MatchView {
            path: self.path@,
            content: self.content@,
            etag: self.etag@,
            encoding: label_view(self.encoding),
        }
    }
}

/// Optimized static files service
pub struct FileService<'a> {
    items: Vec<Item<'a>>,
    index: PathIndex<'a>,
}

impl<'a> View for FileService<'a> {
    type V = Map<Seq<u8>, ItemContent>;

    closed spec fn view(&self) -> Map<Seq<u8>, ItemContent> {
        served(self.items@, index_entries(self.index))
    }
}

/// The table that an index makes of the items it points into.
spec fn served(items: Seq<Item<'_>>, entries: Map<Seq<u8>, usize>) -> Map<Seq<u8>, ItemContent> {
    Map::new(|key: Seq<u8>| entries.contains_key(key), |key: Seq<u8>| items[entries[key] as int]@)
}

/// Whether every entry of an index points at one of the items.
spec fn in_range(items: Seq<Item<'_>>, entries: Map<Seq<u8>, usize>) -> bool {
    forall|key: Seq<u8>| #[trigger] entries.contains_key(key) ==> entries[key] < items.len()
}

impl<'a> FileService<'a> {
    /// Every entry of the index points at one of the items.
    #[verifier::type_invariant]
    spec fn inv(&self) -> bool {
        in_range(self.items@, index_entries(self.index))
    }

    /// Create a file service from the bytes of an artifact and the items of
    /// its manifest. An item that names a region outside the artifact fails
    /// the load.
    pub fn from_raw(content: &'a [u8], items: Vec<ReportItem<'a>>) -> (r: Result<Self, LoadError>)
        ensures
            match r {
                Ok(service) => {
                    &&& forall|i: int|
                        0 <= i < items@.len() ==> (#[trigger] items@[i])@.within(content@.len())
                    &&& service@ == table_of(items_in(report_views(items@), content@))
                },
                Err(e) => {
                    &&& e == LoadError::RegionOutOfBounds
                    &&& exists|i: int|
                        0 <= i < items@.len() && !(#[trigger] items@[i])@.within(content@.len())
                },
            },
    {
        let ghost files = items_in(report_views(items@), content@);
        let mut loaded: Vec<Item<'a>> = Vec::new();
        let mut index = index_new();
        let mut i: usize = 0;
        proof {
            assert(served(loaded@, index_entries(index)) =~= table_of(files.take(0)));
        }
        while i < items.len()
            invariant
                i <= items@.len(),
                files == items_in(report_views(items@), content@),
                loaded@.len() == i,
                forall|k: int| 0 <= k < i ==> (#[trigger] items@[k])@.within(content@.len()),
                in_range(loaded@, index_entries(index)),
                served(loaded@, index_entries(index)) == table_of(files.take(i as int)),
            decreases items@.len() - i,
        {
            let report = &items[i];
            if !report.within(content.len()) {
                return Err(LoadError::RegionOutOfBounds);
            }
            let item = Item::from_report(report, content);
            let ghost before = index_entries(index);
            let ghost earlier = loaded@;
            index_insert(&mut index, report.path.as_bytes(), i);
            loaded.push(item);
            proof {
                let key = encode_utf8(report.path@);
                assert(files[i as int] == item@);
                assert(files.take(i + 1).drop_last() =~= files.take(i as int));
                assert(files.take(i + 1).last() == item@);
                assert forall|k: Seq<u8>| #[trigger]
                    index_entries(index).contains_key(k) implies index_entries(index)[k]
                    < loaded@.len() by {
                    if k != key {
                        assert(before.contains_key(k));
                    }
                }
                assert(served(loaded@, index_entries(index)) =~= served(earlier, before).insert(
                    key,
                    item@,
                )) by {
                    assert forall|k: Seq<u8>| #[trigger]
                        index_entries(index).contains_key(k) && k != key implies loaded@[index_entries(
                        index,
                    )[k] as int] == earlier[before[k] as int] by {
                        assert(before.contains_key(k));
                    }
                }
            }
            i += 1;
        }
        proof {
            assert(files.take(i as int) =~= files);
        }
        Ok(FileService { items: loaded, index })
    }

    /// Create a file service from a blob and the manifest that was built
    /// with it.
    pub fn from_items(content: &'a [u8], items: &'a Vec<crate::worker::Item>) -> (r: Result<
        Self,
        LoadError,
    >)
        ensures
            match r {
                Ok(service) => {
                    &&& forall|i: int|
                        0 <= i < items@.len() ==> (#[trigger] items@[i])@.within(content@.len())
                    &&& service@ == table_of(items_in(crate::worker::item_views(items@), content@))
                },
                Err(e) => {
                    &&& e == LoadError::RegionOutOfBounds
                    &&& exists|i: int|
                        0 <= i < items@.len() && !(#[trigger] items@[i])@.within(content@.len())
                },
            },
    {
        let mut reports: Vec<ReportItem<'a>> = Vec::new();
        let mut i: usize = 0;
        while i < items.len()
            invariant
                i <= items@.len(),
                reports@.len() == i,
                forall|k: int| 0 <= k < i ==> (#[trigger] reports@[k])@ == items@[k]@,
            decreases items@.len() - i,
        {
            reports.push(items[i].as_report());
            i += 1;
        }
        proof {
            assert(report_views(reports@) =~= crate::worker::item_views(items@));
        }
        let r = Self::from_raw(content, reports);
        proof {
            if r is Err {
                let k = choose|k: int|
                    0 <= k < reports@.len() && !(#[trigger] reports@[k])@.within(content@.len());
                assert(!items@[k]@.within(content@.len()));
            } else {
                assert forall|k: int| 0 <= k < items@.len() implies (#[trigger] items@[k])@.within(
                    content@.len(),
                ) by {
                    assert(reports@[k]@.within(content@.len()));
                }
            }
        }
        r
    }

    /// Find a matching file: the request is served from its own path, else
    /// from the index page of the directory it names, else from the page of
    /// that name, in the best encoding the client accepts.
    pub fn find(&self, accept_encoding: &str, path: &str) -> (r: Option<Match<'_>>)
        ensures
            match resolved(self@.dom(), path@) {
                Some(key) => r is Some && r->0@ == matched(accept_encoding@, self@[key]),
                None => r is None,
            },
    {
        let request = trimmed(path.as_bytes(), SLASH);
        // Check path
        if let Some(it) = self.item_under(request) {
            return Some(self.match_item(accept_encoding, it));
        }
        // Check /index.html or path/index.html
        let mut index_page: Vec<u8> = Vec::new();
        if request.len() == 0 {
            index_page.extend_from_slice("index.html".as_bytes());
        } else {
            index_page.extend_from_slice(request);
            index_page.extend_from_slice("/index.html".as_bytes());
        }
        proof {
            assert(index_page@ =~= crate::index_page(request@));
        }
        if let Some(it) = self.item_under(index_page.as_slice()) {
            return Some(self.match_item(accept_encoding, it));
        }
        // Check path.html
        let mut html_page: Vec<u8> = Vec::new();
        html_page.extend_from_slice(request);
        html_page.extend_from_slice(".html".as_bytes());
        proof {
            assert(html_page@ =~= crate::html_page(request@));
        }
        if let Some(it) = self.item_under(html_page.as_slice()) {
            return Some(self.match_item(accept_encoding, it));
        }
        None
    }

    /// The item stored under a path, if there is one.
    fn item_under(&self, path: &[u8]) -> (r: Option<&Item<'a>>)
        ensures
            match r {
                Some(item) => self@.dom().contains(path@) && item@ == self@[path@],
                None => !self@.dom().contains(path@),
            },
    {
        proof {
            use_type_invariant(self);
        }
        match index_get(&self.index, path) {
            Some(i) => Some(&self.items[i]),
            None => None,
        }
    }

    /// Construct match from an item and an accept encoding header value
    fn match_item(&self, accept_encoding: &str, item: &Item<'a>) -> (r: Match<'a>)
        ensures
            r@ == matched(accept_encoding@, item@),
    {
        let (encoding, (etag, content)) = match_encoding_tag(accept_encoding, item);
        Match { path: item.path, content, etag, encoding }
    }
}

} // verus!
