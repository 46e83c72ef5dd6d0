//! The build side: fingerprinting and compressing one file, accumulating the
//! variants of many files into one blob with its manifest, and merging the
//! accumulators that independent workers filled.

use vstd::prelude::*;
use vstd::bytes::{lemma_auto_spec_u128_to_from_le_bytes, spec_u128_to_le_bytes, u128_to_le_bytes};
use crate::sorting::{lemma_map_preserves_multiset, sort_by_path, sorted_by_path};
use crate::ReportItem;
pub use crate::queue::StaticQueue;
use crate::codec::{
    base64_url,
    base64_url_of,
    brotli_compress,
    brotli_done,
    brotli_of,
    is_url_safe,
    gzip_bound,
    gzip_bound_of,
    gzip_compress,
    gzip_of,
    xxh3_128,
    xxh3_128_of,
};

verus! {

/// A compressed variant is kept only when it is smaller than this share, in
/// percent, of the plain content.
pub const RETENTION_PERCENT: u64 = 90;

/// Size of the buffer through which the brotli encoder hands out its stream.
pub const BROTLI_BUFFER_SIZE: usize = 4096;

/// The highest quality the brotli encoder offers.
pub const BROTLI_QUALITY: u32 = 11;

/// Base-two logarithm of the brotli window, the largest of the regular format.
pub const BROTLI_WINDOW: u32 = 24;

/// The longest variant a manifest region can address.
pub const MAX_VARIANT_LEN: usize = 0xffff_ffff;

/// The validator token of a content: the XXH3 hash of its bytes, written in
/// little-endian order and encoded as URL-safe base64 without padding.
pub open spec fn token_of(content: Seq<u8>) -> Seq<char> {
    base64_url_of(spec_u128_to_le_bytes(xxh3_128_of(content)))
}

/// Whether a variant of `variant_len` bytes is worth keeping beside a plain
/// content of `plain_len` bytes: it must be strictly smaller than the
/// retention share of the plain size.
pub open spec fn worth_keeping(variant_len: nat, plain_len: nat) -> bool {
    variant_len * 100 < plain_len * RETENTION_PERCENT
}

/// The retention rule in the terms of a percentage: a variant is worth keeping
/// exactly if its size, as a whole percentage of the plain size rounded
/// down, is below the retention share.
pub proof fn lemma_worth_keeping_percent(variant_len: nat, plain_len: nat)
    requires
        plain_len > 0,
    ensures
        worth_keeping(variant_len, plain_len) <==> (variant_len * 100) / plain_len
            < RETENTION_PERCENT,
{
    let scaled = variant_len * 100;
    let percent = scaled / plain_len;
    assert(scaled == plain_len * percent + scaled % plain_len && 0 <= scaled % plain_len
        < plain_len) by {
        vstd::arithmetic::div_mod::lemma_fundamental_div_mod(scaled as int, plain_len as int);
    }
    if percent < 90 {
        assert(plain_len * percent <= plain_len * 89) by (nonlinear_arith)
            requires
                percent <= 89,
                plain_len > 0,
        ;
    } else {
        assert(plain_len * percent >= plain_len * 90) by (nonlinear_arith)
            requires
                percent >= 90,
                plain_len > 0,
        ;
    }
}

/// A variant if it is worth keeping beside the plain content, else nothing.
pub open spec fn kept(variant: Seq<u8>, plain_len: nat) -> Option<Seq<u8>> {
    if worth_keeping(variant.len(), plain_len) {
        Some(variant)
    } else {
        None
    }
}

/// One file ready to be stored: its path, its plain bytes, and the compressed
/// variants that were worth keeping.
pub type CompressedFile = (String, Vec<u8>, Option<Vec<u8>>, Option<Vec<u8>>);

/// What a [`CompressedFile`] holds.
pub struct FileView {
    pub path: Seq<char>,
    pub plain: Seq<u8>,
    pub gzip: Option<Seq<u8>>,
    pub brotli: Option<Seq<u8>>,
}

/// The bytes of an optional variant.
pub open spec fn variant_bytes(variant: Option<Vec<u8>>) -> Option<Seq<u8>> {
    match variant {
        Some(bytes) => Some(bytes@),
        None => None,
    }
}

/// The view of a [`CompressedFile`].
pub open spec fn file_view(file: CompressedFile) -> FileView {
    FileView {
        path: file.0@,
        plain: file.1@,
        gzip: variant_bytes(file.2),
        brotli: variant_bytes(file.3),
    }
}

/// The file made of a path, its plain bytes and the two compressed streams:
/// an empty file has no compressed variant, and each stream is kept on its own
/// merits.
pub open spec fn selected(path: Seq<char>, plain: Seq<u8>, gzip: Seq<u8>, brotli: Seq<u8>) -> FileView {
    if plain.len() == 0 {
        FileView { path, plain, gzip: None, brotli: None }
    } else {
        FileView { path, plain, gzip: kept(gzip, plain.len()), brotli: kept(brotli, plain.len()) }
    }
}

/// The file that compressing `plain` under `path` yields.
pub open spec fn compressed(path: Seq<char>, plain: Seq<u8>) -> FileView {
    selected(
        path,
        plain,
        gzip_of(plain),
        brotli_of(BROTLI_BUFFER_SIZE, BROTLI_QUALITY, BROTLI_WINDOW, plain),
    )
}

/// Why a file could not be compressed.
#[derive(Debug, Clone, Copy, PartialEq, Eq, Structural)]
pub enum Failure {
    /// The file is longer than a manifest region can address.
    TooLarge,
    /// The gzip compressor reported an error.
    Gzip,
    /// The brotli compressor reported an error.
    Brotli,
}

/// A failed build: the path of the offending file and what went wrong.
#[derive(Debug)]
pub struct BuildError {
    pub path: String,
    pub cause: Failure,
}

/// The number of characters of a validator token.
pub const TOKEN_LEN: usize = 22;

/// Generates the strong validator token of a content: twenty-two characters
/// of the URL-safe alphabet, without padding, that depend on the bytes alone.
pub fn etag(bytes: &[u8]) -> (token: String)
    ensures
        token@ == token_of(bytes@),
        token@.len() == TOKEN_LEN,
        forall|i: int| 0 <= i < token@.len() ==> is_url_safe(#[trigger] token@[i]),
{
    let hash: u128 = xxh3_128(bytes);
    let le = u128_to_le_bytes(hash);
    proof {
        lemma_auto_spec_u128_to_from_le_bytes();
    }
    base64_url(le.as_slice())
}

/// Keeps a compressed variant only if it is worth it beside a plain content
/// of `plain_len` bytes.
pub fn keep_if_smaller(variant: Vec<u8>, plain_len: usize) -> (r: Option<Vec<u8>>)
    ensures
        variant_bytes(r) == kept(variant@, plain_len as nat),
{
    let scaled: u128 = (variant.len() as u128) * 100;
    let limit: u128 = (plain_len as u128) * (RETENTION_PERCENT as u128);
    if scaled < limit {
        Some(variant)
    } else {
        None
    }
}

/// Puts a file together from its plain bytes and the two compressed streams
/// that the codecs returned for them.
pub fn select_variants(path: String, plain: Vec<u8>, gzip: Vec<u8>, brotli: Vec<u8>) -> (file:
    CompressedFile)
    ensures
        file_view(file) == selected(path@, plain@, gzip@, brotli@),
{
    if plain.len() == 0 {
        (path, plain, None, None)
    } else {
        let plain_len: usize = plain.len();
        let gzip = keep_if_smaller(gzip, plain_len);
        let brotli = keep_if_smaller(brotli, plain_len);
        (path, plain, gzip, brotli)
    }
}

/// The gzip stream of a content, at the best compression level, or nothing
/// where the compressor cannot give one. The stream is written into a buffer
/// of the size that the compressor names as its bound, which is always
/// enough. A bound below the length of the content is none, and is taken as
/// the compressor's failure.
fn gzip_stream(plain: &[u8]) -> (r: Option<Vec<u8>>)
    ensures
        r is Some <==> gzip_bound_of(plain@.len() as usize) >= plain@.len(),
        r matches Some(stream) ==> stream@ == gzip_of(plain@),
{
    let max_size: usize = gzip_bound(plain.len());
    if max_size < plain.len() {
        return None;
    }
    let mut out: Vec<u8> = vec![0u8; max_size];
    match gzip_compress(plain, &mut out) {
        Ok(written) => {
            out.truncate(written);
            Some(out)
        },
        Err(_) => None,
    }
}

/// Whether both codecs get through a content: the gzip compressor names a
/// true bound for it, and the brotli encoder takes it without an error.
pub open spec fn codecs_succeed(plain: Seq<u8>) -> bool {
    &&& gzip_bound_of(plain.len() as usize) >= plain.len()
    &&& brotli_done(BROTLI_BUFFER_SIZE, BROTLI_QUALITY, BROTLI_WINDOW, plain)
}

/// Whether a content can be compressed for storing: it is empty, or it fits
/// a manifest region and both codecs get through it.
pub open spec fn storable(plain: Seq<u8>) -> bool {
    plain.len() == 0 || (plain.len() <= MAX_VARIANT_LEN && codecs_succeed(plain))
}

/// What fails a content that cannot be compressed for storing: its length,
/// else the gzip compressor, else the brotli encoder.
pub open spec fn failure_of(plain: Seq<u8>) -> Failure {
    if plain.len() > MAX_VARIANT_LEN {
        Failure::TooLarge
    } else if gzip_bound_of(plain.len() as usize) < plain.len() {
        Failure::Gzip
    } else {
        Failure::Brotli
    }
}

/// Compresses one file: an empty file is stored as it is; of any other, the
/// gzip and brotli streams are computed and each is kept only if it is worth
/// it. A file too long for a manifest region, or a codec that fails, fails
/// the file, and the error names the file and the cause.
pub fn compress_file(path: String, plain: Vec<u8>) -> (r: Result<CompressedFile, BuildError>)
    ensures
        r is Ok <==> storable(plain@),
        r matches Ok(file) ==> file_view(file) == compressed(path@, plain@),
        r matches Err(e) ==> e.path@ == path@ && e.cause == failure_of(plain@),
{
    if plain.len() == 0 {
        return Ok((path, plain, None, None));
    }
    if plain.len() > MAX_VARIANT_LEN {
        return Err(BuildError { path, cause: Failure::TooLarge });
    }
    let gzip = match gzip_stream(plain.as_slice()) {
        Some(stream) => stream,
        None => {
            return Err(BuildError { path, cause: Failure::Gzip });
        },
    };
    let brotli = match brotli_compress(
        plain.as_slice(),
        BROTLI_BUFFER_SIZE,
        BROTLI_QUALITY,
        BROTLI_WINDOW,
    ) {
        Ok(stream) => stream,
        Err(_) => {
            return Err(BuildError { path, cause: Failure::Brotli });
        },
    };
    Ok(select_variants(path, plain, gzip, brotli))
}

/// One stored file: its path and, for each variant kept, the validator token
/// and the region `(start, length)` of the blob that holds the variant.
#[derive(Debug)]
pub struct Item {
    pub path: String,
    pub plain: (String, (u64, u32)),
    pub gzip: Option<(String, (u64, u32))>,
    pub brotli: Option<(String, (u64, u32))>,
}

/// One stored variant: its validator token and where it lies in the blob.
pub struct VariantView {
    pub etag: Seq<char>,
    pub start: nat,
    pub len: nat,
}

/// What an [`Item`] says.
pub struct ItemView {
    pub path: Seq<char>,
    pub plain: VariantView,
    pub gzip: Option<VariantView>,
    pub brotli: Option<VariantView>,
}

/// The view of a token with its region.
pub open spec fn variant_view(variant: (String, (u64, u32))) -> VariantView {
    VariantView { etag: variant.0@, start: variant.1.0 as nat, len: variant.1.1 as nat }
}

/// The view of an optional token with its region.
pub open spec fn optional_variant_view(variant: Option<(String, (u64, u32))>) -> Option<
    VariantView,
> {
    match variant {
        Some(v) => Some(variant_view(v)),
        None => None,
    }
}

impl View for Item {
    type V = ItemView;

    open spec fn view(&self) -> ItemView {
        ItemView {
            path: self.path@,
            plain: variant_view(self.plain),
            gzip: optional_variant_view(self.gzip),
            brotli: optional_variant_view(self.brotli),
        }
    }
}

impl Item {
    /// The item as a loaded artifact takes it: the same record, borrowed.
    pub fn as_report(&self) -> (report: ReportItem<'_>)
        ensures
            report@ == self@,
    {
        ReportItem {
            path: self.path.as_str(),
            plain: (self.plain.0.as_str(), self.plain.1),
            gzip: match &self.gzip {
                Some(v) => Some((v.0.as_str(), v.1)),
                None => None,
            },
            brotli: match &self.brotli {
                Some(v) => Some((v.0.as_str(), v.1)),
                None => None,
            },
        }
    }
}

/// The views of a sequence of items.
pub open spec fn item_views(items: Seq<Item>) -> Seq<ItemView> {
    items.map_values(|item: Item| item@)
}

impl VariantView {
    /// The region ends within a blob of `blob_len` bytes.
    pub open spec fn within(self, blob_len: nat) -> bool {
        self.start + self.len <= blob_len
    }

    /// The same variant in a blob that grew by `by` bytes at its front.
    pub open spec fn shifted(self, by: nat) -> VariantView {
        VariantView { etag: self.etag, start: self.start + by, len: self.len }
    }

    /// The bytes of the variant in `blob`.
    pub open spec fn content(self, blob: Seq<u8>) -> Seq<u8> {
        blob.subrange(self.start as int, (self.start + self.len) as int)
    }
}

/// An optional variant in a blob that grew by `by` bytes at its front.
pub open spec fn shifted_variant(variant: Option<VariantView>, by: nat) -> Option<VariantView> {
    match variant {
        Some(v) => Some(v.shifted(by)),
        None => None,
    }
}

/// Whether an optional variant, if there is one, ends within the blob.
pub open spec fn variant_within(variant: Option<VariantView>, blob_len: nat) -> bool {
    match variant {
        Some(v) => v.within(blob_len),
        None => true,
    }
}

impl ItemView {
    /// Every region of the item ends within a blob of `blob_len` bytes.
    pub open spec fn within(self, blob_len: nat) -> bool {
        &&& self.plain.within(blob_len)
        &&& variant_within(self.gzip, blob_len)
        &&& variant_within(self.brotli, blob_len)
    }

    /// The same item in a blob that grew by `by` bytes at its front.
    pub open spec fn shifted(self, by: nat) -> ItemView {
        ItemView {
            path: self.path,
            plain: self.plain.shifted(by),
            gzip: shifted_variant(self.gzip, by),
            brotli: shifted_variant(self.brotli, by),
        }
    }
}

/// A blob with the manifest of what it holds.
pub struct AccumulatorView {
    pub bytes: Seq<u8>,
    pub items: Seq<ItemView>,
}

/// The bytes of an optional variant, none counting as no bytes.
pub open spec fn bytes_or_empty(variant: Option<Seq<u8>>) -> Seq<u8> {
    match variant {
        Some(bytes) => bytes,
        None => Seq::empty(),
    }
}

/// The manifest record of a variant stored at `start`, if there is one.
pub open spec fn stored_at(variant: Option<Seq<u8>>, start: nat) -> Option<VariantView> {
    match variant {
        Some(bytes) => Some(VariantView { etag: token_of(bytes), start, len: bytes.len() }),
        None => None,
    }
}

impl AccumulatorView {
    /// Nothing stored yet.
    pub open spec fn empty() -> AccumulatorView {
        AccumulatorView { bytes: Seq::empty(), items: Seq::empty() }
    }

    /// Every region of every item ends within the blob.
    pub open spec fn consistent(self) -> bool {
        forall|i: int| 0 <= i < self.items.len() ==> (#[trigger] self.items[i]).within(
            self.bytes.len(),
        )
    }

    /// The manifest record of `file` when it is stored next.
    pub open spec fn next_item(self, file: FileView) -> ItemView {
        let plain_at = self.bytes.len();
        let gzip_at = plain_at + file.plain.len();
        let brotli_at = gzip_at + bytes_or_empty(file.gzip).len();
        ItemView {
            path: file.path,
            plain: VariantView {
                etag: token_of(file.plain),
                start: plain_at,
                len: file.plain.len(),
            },
            gzip: stored_at(file.gzip, gzip_at),
            brotli: stored_at(file.brotli, brotli_at),
        }
    }

    /// The accumulator after `file` is stored: its plain bytes, then its gzip
    /// and brotli variants if it has them, follow what was there, and one
    /// item is recorded for it.
    pub open spec fn added(self, file: FileView) -> AccumulatorView {
        AccumulatorView {
            bytes: self.bytes + file.plain + bytes_or_empty(file.gzip) + bytes_or_empty(
                file.brotli,
            ),
            items: self.items.push(self.next_item(file)),
        }
    }

    /// The accumulator that holds what `self` holds followed by what `other`
    /// holds: the blobs are concatenated and the regions of `other` move by
    /// the length of the blob of `self`.
    pub open spec fn merged(self, other: AccumulatorView) -> AccumulatorView {
        AccumulatorView {
            bytes: self.bytes + other.bytes,
            items: self.items + other.items.map_values(
                |item: ItemView| item.shifted(self.bytes.len()),
            ),
        }
    }
}

/// Whether every variant of a file is short enough for a manifest region.
pub open spec fn fits(file: FileView) -> bool {
    &&& file.plain.len() <= MAX_VARIANT_LEN
    &&& bytes_or_empty(file.gzip).len() <= MAX_VARIANT_LEN
    &&& bytes_or_empty(file.brotli).len() <= MAX_VARIANT_LEN
}

/// Whether every variant of a file is short enough for a manifest region.
pub fn file_fits(file: &CompressedFile) -> (r: bool)
    ensures
        r == fits(file_view(*file)),
{
    file.1.len() <= MAX_VARIANT_LEN && (match &file.2 {
        Some(bytes) => bytes.len() <= MAX_VARIANT_LEN,
        None => true,
    }) && (match &file.3 {
        Some(bytes) => bytes.len() <= MAX_VARIANT_LEN,
        None => true,
    })
}

/// An append-only blob with the manifest of the files stored in it so far.
pub struct Accumulator {
    bytes: Vec<u8>,
    items: Vec<Item>,
    count: u64,
}

impl View for Accumulator {
    type V = AccumulatorView;

    closed spec fn view(&self) -> AccumulatorView {
        AccumulatorView { bytes: self.bytes@, items: item_views(self.items@) }
    }
}

impl Accumulator {
    /// The running count is the length of the blob, and every region
    /// recorded so far ends within it.
    pub closed spec fn wf(&self) -> bool {
        &&& self.count == self.bytes@.len()
        &&& self@.consistent()
    }

    /// The regions of a well-formed accumulator end within its blob.
    pub proof fn lemma_wf_consistent(&self)
        requires
            self.wf(),
        ensures
            self@.consistent(),
    {
    }

    /// New empty accumulator.
    pub fn new() -> (acc: Accumulator)
        ensures
            acc.wf(),
            acc@ == AccumulatorView::empty(),
    {
        let acc = Accumulator { bytes: Vec::new(), items: Vec::new(), count: 0 };
        proof {
            assert(item_views(acc.items@) =~= Seq::empty());
        }
        acc
    }

    /// Appends a content to the blob and returns the region it now occupies.
    fn append(&mut self, content: &[u8]) -> (region: (u64, u32))
        requires
            old(self).count == old(self).bytes@.len(),
            content@.len() <= MAX_VARIANT_LEN,
        ensures
            final(self).count == final(self).bytes@.len(),
            final(self).bytes@ == old(self).bytes@ + content@,
            final(self).items == old(self).items,
            region.0 == old(self).bytes@.len(),
            region.1 == content@.len(),
    {
        let start: u64 = self.count;
        self.bytes.extend_from_slice(content);
        self.count = self.bytes.len() as u64;
        proof {
            assert(self.bytes@ =~= old(self).bytes@ + content@);
        }
        (start, content.len() as u32)
    }

    /// Appends an optional variant to the blob and returns its token with the
    /// region it now occupies.
    fn append_variant(&mut self, variant: &Option<Vec<u8>>) -> (stored: Option<(String, (u64, u32))>)
        requires
            old(self).count == old(self).bytes@.len(),
            bytes_or_empty(variant_bytes(*variant)).len() <= MAX_VARIANT_LEN,
        ensures
            final(self).count == final(self).bytes@.len(),
            final(self).bytes@ == old(self).bytes@ + bytes_or_empty(variant_bytes(*variant)),
            final(self).items == old(self).items,
            optional_variant_view(stored) == stored_at(
                variant_bytes(*variant),
                old(self).bytes@.len(),
            ),
    {
        match variant {
            Some(content) => {
                let token = etag(content.as_slice());
                let region = self.append(content.as_slice());
                Some((token, region))
            },
            None => {
                proof {
                    assert(self.bytes@ =~= self.bytes@ + Seq::<u8>::empty());
                }
                None
            },
        }
    }

    /// Add a new compressed file: its plain bytes, then its gzip and brotli
    /// variants if it has them, are appended to the blob, and an item records
    /// the token and the region of each.
    pub fn add(&mut self, file: CompressedFile)
        requires
            old(self).wf(),
            fits(file_view(file)),
        ensures
            final(self).wf(),
            final(self)@ == old(self)@.added(file_view(file)),
    {
        let (path, content, gzip, brotli) = file;
        let ghost before = self@;
        let ghost view = file_view((path, content, gzip, brotli));
        let plain = (etag(content.as_slice()), self.append(content.as_slice()));
        let gzip = self.append_variant(&gzip);
        let brotli = self.append_variant(&brotli);
        let item = Item { path, plain, gzip, brotli };
        proof {
            assert(item@ == before.next_item(view));
            assert(item@.within(self.bytes@.len()));
            assert forall|i: int| 0 <= i < self.items@.len() implies (#[trigger] item_views(
                self.items@,
            )[i]).within(self.bytes@.len()) by {
                assert(before.items[i].within(before.bytes.len()));
            }
        }
        self.items.push(item);
        proof {
            assert(item_views(self.items@) =~= before.items.push(before.next_item(view)));
        }
    }

    /// Merge two accumulators: the blob of `other` follows that of `self`,
    /// and the items of `other` follow those of `self` with their regions
    /// moved by the length of the blob of `self`.
    pub fn merge(self, other: Accumulator) -> (merged: Accumulator)
        requires
            self.wf(),
            other.wf(),
        ensures
            merged.wf(),
            merged@ == self@.merged(other@),
    {
        let ghost left = self@;
        let ghost right = other@;
        let Accumulator { bytes: mut bytes, items: mut items, count: shift } = self;
        let Accumulator { bytes: mut tail, items: incoming, count: _ } = other;
        bytes.append(&mut tail);
        let total: u64 = bytes.len() as u64;
        // The items are taken from the back of a reversed copy, so that they
        // arrive in their own order.
        let mut pending = reversed(incoming);
        let ghost moved = left.items.len();
        let ghost n = right.items.len();
        while pending.len() > 0
            invariant
                n == right.items.len(),
                moved == left.items.len(),
                pending@.len() <= n,
                shift == left.bytes.len(),
                total == left.bytes.len() + right.bytes.len(),
                right.consistent(),
                forall|k: int|
                    0 <= k < pending@.len() ==> (#[trigger] pending@[k])@ == right.items[n - 1
                        - k],
                items@.len() == moved + n - pending@.len(),
                forall|k: int| 0 <= k < moved ==> (#[trigger] items@[k])@ == left.items[k],
                forall|k: int|
                    moved <= k < items@.len() ==> (#[trigger] items@[k])@ == right.items[k
                        - moved].shifted(left.bytes.len()),
            decreases pending@.len(),
        {
            let ghost at = n - pending@.len();
            let item = pending.pop().unwrap();
            proof {
                assert(item@ == right.items[at]);
                assert(right.items[at].within(right.bytes.len()));
            }
            items.push(shift_item(item, shift, total));
        }
        let merged = Accumulator { bytes, items, count: total };
        proof {
            let target = left.merged(right);
            assert(merged@.bytes =~= target.bytes);
            assert(merged@.items =~= target.items);
            assert forall|i: int| 0 <= i < merged@.items.len() implies (
            #[trigger] merged@.items[i]).within(merged@.bytes.len()) by {
                if i < moved {
                    assert(left.items[i].within(left.bytes.len()));
                } else {
                    assert(right.items[i - moved].within(right.bytes.len()));
                }
            }
        }
        merged
    }

    /// Finishes the accumulator into the blob and the manifest of what it
    /// holds.
    pub fn into_raw(self) -> (raw: (Vec<u8>, Vec<Item>))
        requires
            self.wf(),
        ensures
            raw.0@ == self@.bytes,
            item_views(raw.1@) == self@.items,
            self@.consistent(),
    {
        (self.bytes, self.items)
    }

    /// Persist the blob in `out`, whose former content is dropped, and return
    /// the manifest.
    pub fn persist(self, out: &mut Vec<u8>) -> (items: Vec<Item>)
        requires
            self.wf(),
        ensures
            final(out)@ == self@.bytes,
            item_views(items@) == self@.items,
            self@.consistent(),
    {
        let (bytes, items) = self.into_raw();
        *out = bytes;
        items
    }
}

/// A token with its region in a blob that grew by `by` bytes at its front.
fn shift_variant(variant: (String, (u64, u32)), by: u64, total: u64) -> (moved: (
    String,
    (u64, u32),
))
    requires
        variant_view(variant).start + variant_view(variant).len + by <= total,
    ensures
        variant_view(moved) == variant_view(variant).shifted(by as nat),
{
    let (token, (start, len)) = variant;
    (token, (start + by, len))
}

/// An item in a blob that grew by `by` bytes at its front.
fn shift_item(item: Item, by: u64, total: u64) -> (moved: Item)
    requires
        item@.within((total - by) as nat),
        by <= total,
    ensures
        moved@ == item@.shifted(by as nat),
{
    let Item { path, plain, gzip, brotli } = item;
    Item {
        path,
        plain: shift_variant(plain, by, total),
        gzip: match gzip {
            Some(v) => Some(shift_variant(v, by, total)),
            None => None,
        },
        brotli: match brotli {
            Some(v) => Some(shift_variant(v, by, total)),
            None => None,
        },
    }
}

/// The same elements in the opposite order.
pub(crate) fn reversed<T>(items: Vec<T>) -> (r: Vec<T>)
    ensures
        r@ == items@.reverse(),
        r@.len() == items@.len(),
        forall|k: int| 0 <= k < r@.len() ==> #[trigger] r@[k] == items@[items@.len() - 1 - k],
{
    let mut rest = items;
    let mut out: Vec<T> = Vec::new();
    while rest.len() > 0
        invariant
            rest@.len() + out@.len() == items@.len(),
            forall|k: int| 0 <= k < rest@.len() ==> #[trigger] rest@[k] == items@[k],
            forall|k: int| 0 <= k < out@.len() ==> #[trigger] out@[k] == items@[items@.len() - 1 - k],
        decreases rest@.len(),
    {
        let item = rest.pop().unwrap();
        out.push(item);
    }
    proof {
        assert(out@ =~= items@.reverse());
    }
    out
}

/// What a file to be stored is made of: its path and its plain bytes.
pub type Source = (String, Vec<u8>);

/// The path and the plain bytes of each source.
pub open spec fn source_views(sources: Seq<Source>) -> Seq<(Seq<char>, Seq<u8>)> {
    sources.map_values(|source: Source| (source.0@, source.1@))
}

/// The files that compressing each source yields.
pub open spec fn compressed_all(sources: Seq<(Seq<char>, Seq<u8>)>) -> Seq<FileView> {
    sources.map_values(|source: (Seq<char>, Seq<u8>)| compressed(source.0, source.1))
}

/// The accumulator that holds `files`, stored one after the other.
pub open spec fn accumulated(files: Seq<FileView>) -> AccumulatorView
    decreases files.len(),
{
    if files.len() == 0 {
        AccumulatorView::empty()
    } else {
        accumulated(files.drop_last()).added(files.last())
    }
}

/// The accumulator that holds what each of `parts` holds, one after the
/// other.
pub open spec fn merged_all(parts: Seq<AccumulatorView>) -> AccumulatorView
    decreases parts.len(),
{
    if parts.len() == 0 {
        AccumulatorView::empty()
    } else {
        merged_all(parts.drop_last()).merged(parts.last())
    }
}

/// The views of a sequence of accumulators.
pub open spec fn accumulator_views(parts: Seq<Accumulator>) -> Seq<AccumulatorView> {
    parts.map_values(|part: Accumulator| part@)
}

/// A variant that is kept is shorter than the plain content, so a file put
/// together from a plain content that fits a region fits as a whole.
pub proof fn lemma_selected_fits(path: Seq<char>, plain: Seq<u8>, gzip: Seq<u8>, brotli: Seq<u8>)
    requires
        plain.len() <= MAX_VARIANT_LEN,
    ensures
        fits(selected(path, plain, gzip, brotli)),
{
}

/// Whether every source can be compressed for storing.
pub open spec fn all_storable(sources: Seq<(Seq<char>, Seq<u8>)>) -> bool {
    forall|i: int| 0 <= i < sources.len() ==> storable((#[trigger] sources[i]).1)
}

/// Whether the source at `at` is the first that cannot be compressed for
/// storing.
pub open spec fn first_unstorable(sources: Seq<(Seq<char>, Seq<u8>)>, at: int) -> bool {
    &&& 0 <= at < sources.len()
    &&& !storable(sources[at].1)
    &&& forall|j: int| 0 <= j < at ==> storable((#[trigger] sources[j]).1)
}

/// Whether `path` and `cause` are those of the first source that cannot be
/// compressed for storing, the source at `at`.
pub open spec fn fails_at(
    sources: Seq<(Seq<char>, Seq<u8>)>,
    at: int,
    path: Seq<char>,
    cause: Failure,
) -> bool {
    &&& first_unstorable(sources, at)
    &&& path == sources[at].0
    &&& cause == failure_of(sources[at].1)
}

/// There is at most one first source that cannot be compressed, so a failed
/// build names one file and one cause.
pub proof fn lemma_failure_is_unique(
    sources: Seq<(Seq<char>, Seq<u8>)>,
    at: int,
    other: int,
    path: Seq<char>,
    cause: Failure,
    other_path: Seq<char>,
    other_cause: Failure,
)
    requires
        fails_at(sources, at, path, cause),
        fails_at(sources, other, other_path, other_cause),
    ensures
        at == other,
        path == other_path,
        cause == other_cause,
        !all_storable(sources),
{
    if at < other {
        assert(storable(sources[at].1));
    } else if other < at {
        assert(storable(sources[other].1));
    }
}

/// Compress the given files one after the other into a fresh accumulator.
/// The build succeeds exactly if every file can be compressed; else it ends
/// at the first that cannot, and the error names that file and what failed
/// it.
pub fn compress_dir(files: Vec<Source>) -> (r: Result<Accumulator, BuildError>)
    ensures
        r is Ok <==> all_storable(source_views(files@)),
        r matches Ok(acc) ==> acc.wf() && acc@ == accumulated(
            compressed_all(source_views(files@)),
        ),
        r matches Err(e) ==> exists|i: int| #[trigger]
            fails_at(source_views(files@), i, e.path@, e.cause),
{
    let ghost sources = source_views(files@);
    let ghost n = files@.len();
    let mut pending = reversed(files);
    let mut acc = Accumulator::new();
    proof {
        assert(compressed_all(sources.take(0)) =~= Seq::empty());
    }
    while pending.len() > 0
        invariant
            n == files@.len(),
            sources == source_views(files@),
            pending@.len() <= n,
            forall|k: int| 0 <= k < pending@.len() ==> #[trigger] pending@[k] == files@[n - 1 - k],
            acc.wf(),
            acc@ == accumulated(compressed_all(sources.take(n - pending@.len()))),
            forall|j: int| 0 <= j < n - pending@.len() ==> storable((#[trigger] sources[j]).1),
        decreases pending@.len(),
    {
        let ghost at = n - pending@.len();
        let (path, plain) = pending.pop().unwrap();
        proof {
            assert((path, plain) == files@[at]);
            assert(sources[at] == (path@, plain@));
        }
        match compress_file(path, plain) {
            Ok(file) => {
                proof {
                    lemma_selected_fits(
                        path@,
                        plain@,
                        gzip_of(plain@),
                        brotli_of(BROTLI_BUFFER_SIZE, BROTLI_QUALITY, BROTLI_WINDOW, plain@),
                    );
                    let done = compressed_all(sources.take(at + 1));
                    assert(done.drop_last() =~= compressed_all(sources.take(at)));
                    assert(done.last() == compressed(path@, plain@));
                }
                acc.add(file);
            },
            Err(e) => {
                proof {
                    assert(fails_at(sources, at, e.path@, e.cause));
                }
                return Err(e);
            },
        }
    }
    proof {
        assert(sources.take(n as int) =~= sources);
    }
    Ok(acc)
}

/// Folds the accumulators of several workers into one, in the order given.
/// No accumulator at all gives an empty one.
pub fn reduce(parts: Vec<Accumulator>) -> (acc: Accumulator)
    requires
        forall|i: int| 0 <= i < parts@.len() ==> (#[trigger] parts@[i]).wf(),
    ensures
        acc.wf(),
        acc@ == merged_all(accumulator_views(parts@)),
{
    let ghost views = accumulator_views(parts@);
    let ghost n = parts@.len();
    let mut pending = reversed(parts);
    let mut acc = Accumulator::new();
    proof {
        assert(views.take(0) =~= Seq::empty());
    }
    while pending.len() > 0
        invariant
            n == parts@.len(),
            views == accumulator_views(parts@),
            pending@.len() <= n,
            forall|k: int| 0 <= k < pending@.len() ==> #[trigger] pending@[k] == parts@[n - 1 - k],
            forall|i: int| 0 <= i < parts@.len() ==> (#[trigger] parts@[i]).wf(),
            acc.wf(),
            acc@ == merged_all(views.take(n - pending@.len())),
        decreases pending@.len(),
    {
        let ghost at = n - pending@.len();
        let part = pending.pop().unwrap();
        proof {
            assert(part == parts@[at]);
            assert(views.take(at + 1).drop_last() =~= views.take(at));
            assert(views.take(at + 1).last() == part@);
        }
        acc = acc.merge(part);
    }
    proof {
        assert(views.take(n as int) =~= views);
    }
    acc
}

/// Optimize the given files into one blob, returning it with the manifest
/// sorted by path. The build succeeds exactly if every file can be
/// compressed; else nothing is returned but the error, which names the first
/// file that cannot and what failed it.
pub fn optimize(files: Vec<Source>) -> (r: Result<(Vec<u8>, Vec<Item>), BuildError>)
    ensures
        r is Ok <==> all_storable(source_views(files@)),
        r matches Ok((blob, items)) ==> ({
            let acc = accumulated(compressed_all(source_views(files@)));
            &&& blob@ == acc.bytes
            &&& sorted_by_path(item_views(items@))
            &&& item_views(items@).to_multiset() == acc.items.to_multiset()
            &&& acc.consistent()
        }),
        r matches Err(e) ==> exists|i: int| #[trigger]
            fails_at(source_views(files@), i, e.path@, e.cause),
{
    match compress_dir(files) {
        Ok(acc) => {
            let (blob, items) = acc.into_raw();
            let ghost stored = items@;
            let items = sort_by_path(items);
            proof {
                lemma_map_preserves_multiset(items@, stored, |item: Item| item@);
            }
            Ok((blob, items))
        },
        Err(e) => Err(e),
    }
}

} // verus!
